use vstd::prelude::*;

use crate::chip::{MachineChip, Rap};
use crate::field::{f_add, f_mul, f_sub, fz, is_zero2, lemma_canonical_mod, lemma_congruent_add_sub, lemma_fz_congruent2, P};
use crate::interaction::{
    interactions_view, lemma_weighted_sum_last, vpc_eval, Interaction, InteractionSpec, PairCol, VirtualPairCol,
    VpcSpec,
};
use crate::permutation_air::PermutationAir;
use crate::util::{is_next_power_of_two, next_power_of_two};

verus! {

/// Whether a memory operation reads or writes.
#[derive(Clone, Copy, PartialEq, Eq, Structural, Debug)]
pub enum OperationKind {
    Read,
    Write,
}

/// One byte-wide memory access.
#[derive(Clone, Copy, PartialEq, Eq, Structural, Debug)]
pub struct MemoryOp {
    pub addr: u32,
    pub timestamp: u32,
    pub value: u8,
    pub kind: OperationKind,
}

/// The memory chip: a log of accesses sorted by address, then timestamp.
#[derive(Clone, Debug)]
pub struct MemoryChip {
    pub operations: Vec<MemoryOp>,
    pub bus_memory: usize,
    pub bus_range_8: usize,
}

/// One row of the memory trace.
#[derive(Debug)]
pub struct MemoryCols<T> {
    pub addr: T,
    pub timestamp: T,
    pub value: T,
    pub is_read: T,
    pub is_write: T,
    pub addr_unchanged: T,
    /// The low byte of `addr' - addr - 1` (address changed) or of
    /// `timestamp' - timestamp` (address unchanged).
    pub diff_limb_lo: T,
    pub diff_limb_md: T,
    pub diff_limb_hi: T,
}

/// The number of columns of the memory trace.
pub const NUM_MEMORY_COLS: usize = 9;

/// The column index of each field of [`MemoryCols`].
pub open spec fn memory_col_map() -> MemoryCols<usize> {
    MemoryCols {
        addr: 0,
        timestamp: 1,
        value: 2,
        is_read: 3,
        is_write: 4,
        addr_unchanged: 5,
        diff_limb_lo: 6,
        diff_limb_md: 7,
        diff_limb_hi: 8,
    }
}

/// The column index of each field of [`MemoryCols`].
pub fn make_col_map() -> (r: MemoryCols<usize>)
    ensures
        r == memory_col_map(),
{
    MemoryCols {
        addr: 0,
        timestamp: 1,
        value: 2,
        is_read: 3,
        is_write: 4,
        addr_unchanged: 5,
        diff_limb_lo: 6,
        diff_limb_md: 7,
        diff_limb_hi: 8,
    }
}

impl MemoryCols<u32> {
    /// The row as a slice of values, each field at its column index.
    pub fn to_row(&self) -> (r: Vec<u32>)
        ensures
            r@ == seq![
                self.addr,
                self.timestamp,
                self.value,
                self.is_read,
                self.is_write,
                self.addr_unchanged,
                self.diff_limb_lo,
                self.diff_limb_md,
                self.diff_limb_hi,
            ],
    {
        let mut r: Vec<u32> = Vec::new();
        r.push(self.addr);
        r.push(self.timestamp);
        r.push(self.value);
        r.push(self.is_read);
        r.push(self.is_write);
        r.push(self.addr_unchanged);
        r.push(self.diff_limb_lo);
        r.push(self.diff_limb_md);
        r.push(self.diff_limb_hi);
        r
    }
}

/// Consecutive operations are sorted by address, then timestamp.
pub open spec fn memory_ops_sorted(ops: Seq<MemoryOp>) -> bool {
    forall|i: int|
        0 < i < ops.len() ==> {
            &&& #[trigger] ops[i].addr == ops[i - 1].addr ==> ops[i].timestamp >= ops[i - 1].timestamp
            &&& ops[i].addr != ops[i - 1].addr ==> ops[i].addr > ops[i - 1].addr
        }
}

/// The gap to the previous operation that is range-checked: the timestamp
/// difference at an unchanged address, else the address difference minus one.
pub open spec fn memory_diff(ops: Seq<MemoryOp>, i: int) -> int {
    if ops[i].addr == ops[i - 1].addr {
        ops[i].timestamp - ops[i - 1].timestamp
    } else {
        ops[i].addr - ops[i - 1].addr - 1
    }
}

/// The all-zero row.
pub open spec fn zero_memory_row() -> MemoryCols<u32> {
    MemoryCols {
        addr: 0,
        timestamp: 0,
        value: 0,
        is_read: 0,
        is_write: 0,
        addr_unchanged: 0,
        diff_limb_lo: 0,
        diff_limb_md: 0,
        diff_limb_hi: 0,
    }
}

/// Row `i` of the memory trace of `ops`.
pub open spec fn memory_row(ops: Seq<MemoryOp>, i: int) -> MemoryCols<u32> {
    if i >= ops.len() {
        zero_memory_row()
    } else {
        let op = ops[i];
        let d = if i > 0 { memory_diff(ops, i) } else { 0 };
        MemoryCols {
            addr: op.addr,
            timestamp: op.timestamp,
            value: op.value as u32,
            is_read: if op.kind == OperationKind::Read { 1 } else { 0 },
            is_write: if op.kind == OperationKind::Write { 1 } else { 0 },
            addr_unchanged: if i > 0 && op.addr == ops[i - 1].addr { 1 } else { 0 },
            diff_limb_lo: (d % 256) as u32,
            diff_limb_md: ((d / 256) % 256) as u32,
            diff_limb_hi: ((d / 65536) % 256) as u32,
        }
    }
}

/// The three byte limbs of a gap recompose its low 24 bits.
pub proof fn memory_diff_limbs(d: u32)
    ensures
        d % 256 < 256,
        (d / 256) % 256 < 256,
        (d / 65536) % 256 < 256,
        d % 256 + 256 * ((d / 256) % 256) + 65536 * ((d / 65536) % 256) == d % 0x100_0000,
{
    assert(d % 256 + 256 * ((d / 256) % 256) + 65536 * ((d / 65536) % 256) == d % 0x100_0000)
        by (bit_vector);
}

impl MemoryChip {
    /// The memory trace: one row per operation, then zero rows up to the
    /// next power of two.
    pub fn generate_trace(&self) -> (rows: Vec<MemoryCols<u32>>)
        requires
            memory_ops_sorted(self.operations@),
            self.operations.len() <= usize::MAX / 2 + 1,
        ensures
            is_next_power_of_two(self.operations.len() as nat, rows.len() as nat),
            forall|i: int| 0 <= i < rows.len() ==> #[trigger] rows[i] == memory_row(self.operations@, i),
            forall|i: int|
                0 <= i < self.operations.len() ==> {
                    let op = self.operations[i];
                    &&& (#[trigger] rows[i]).addr == op.addr
                    &&& rows[i].timestamp == op.timestamp
                    &&& rows[i].value == op.value as u32
                    &&& rows[i].is_read == (if op.kind == OperationKind::Read { 1u32 } else { 0u32 })
                    &&& rows[i].is_write == (if op.kind == OperationKind::Write { 1u32 } else { 0u32 })
                },
            forall|i: int|
                self.operations.len() <= i < rows.len() ==> (#[trigger] rows[i]).is_read == 0 && rows[i].is_write
                    == 0,
            forall|i: int| 0 < i < self.operations.len() ==> #[trigger] memory_row_gap_ok(self.operations@, rows[i], i),
            self.operations.len() > 0 ==> rows[0].addr_unchanged == 0 && rows[0].diff_limb_lo == 0
                && rows[0].diff_limb_md == 0 && rows[0].diff_limb_hi == 0,
    {
        let ops = &self.operations;
        let num_real_rows = ops.len();
        let num_rows = next_power_of_two(num_real_rows);
        let mut rows: Vec<MemoryCols<u32>> = Vec::new();
        let mut i: usize = 0;
        while i < num_rows
            invariant
                i <= num_rows,
                num_real_rows == ops.len(),
                memory_ops_sorted(ops@),
                rows.len() == i,
                forall|k: int| 0 <= k < i ==> #[trigger] rows[k] == memory_row(ops@, k),
            decreases num_rows - i,
        {
            if i < num_real_rows {
                let op = ops[i];
                let mut row = MemoryCols {
                    addr: op.addr,
                    timestamp: op.timestamp,
                    value: op.value as u32,
                    is_read: 0,
                    is_write: 0,
                    addr_unchanged: 0,
                    diff_limb_lo: 0,
                    diff_limb_md: 0,
                    diff_limb_hi: 0,
                };
                match op.kind {
                    OperationKind::Read => {
                        row.is_read = 1;
                    },
                    OperationKind::Write => {
                        row.is_write = 1;
                    },
                }
                if i > 0 {
                    let op_prev = ops[i - 1];
                    assert(ops@[i as int] == op && ops@[i - 1] == op_prev);
                    let diff: u32 = if op.addr == op_prev.addr {
                        row.addr_unchanged = 1;
                        op.timestamp - op_prev.timestamp
                    } else {
                        op.addr - op_prev.addr - 1
                    };
                    assert(diff == memory_diff(ops@, i as int));
                    assert(diff >> 8u32 == diff / 256 && diff >> 16u32 == diff / 65536) by (bit_vector);
                    row.diff_limb_lo = diff % 256;
                    row.diff_limb_md = (diff >> 8u32) % 256;
                    row.diff_limb_hi = (diff >> 16u32) % 256;
                }
                rows.push(row);
            } else {
                rows.push(
                    MemoryCols {
                        addr: 0,
                        timestamp: 0,
                        value: 0,
                        is_read: 0,
                        is_write: 0,
                        addr_unchanged: 0,
                        diff_limb_lo: 0,
                        diff_limb_md: 0,
                        diff_limb_hi: 0,
                    },
                );
            }
            i = i + 1;
        }
        proof {
            assert forall|i: int| 0 <= i < rows.len() implies #[trigger] memory_row(ops@, i) == rows[i] by {}
            assert forall|i: int| 0 <= i < ops.len() implies memory_row_records_operation(ops@, i) by {
                lemma_memory_row_records_operation(ops@, i);
            }
            assert forall|i: int| 0 < i < ops.len() implies #[trigger] memory_row_gap_ok(ops@, rows[i], i) by {
                lemma_memory_row_gap(ops@, i);
            }
        }
        rows
    }
}

/// The virtual column equal to main column `c`.
pub open spec fn single_main_spec(c: usize) -> VpcSpec {
    VpcSpec { weights: seq![(PairCol::Main(c), 1u32)], constant: 0 }
}

/// The virtual column `main[a] + main[b]`.
pub open spec fn sum_main2_spec(a: usize, b: usize) -> VpcSpec {
    VpcSpec { weights: seq![(PairCol::Main(a), 1u32), (PairCol::Main(b), 1u32)], constant: 0 }
}

/// A range check of one byte limb column, counted on every real row.
pub open spec fn memory_limb_check(limb: usize, bus_range_8: usize) -> InteractionSpec {
    InteractionSpec {
        fields: seq![single_main_spec(limb)],
        count: sum_main2_spec(3, 4),
        argument_index: bus_range_8,
    }
}

/// The access `(timestamp, addr, value)`, counted by the given flag column.
pub open spec fn memory_access(flag: usize, bus_memory: usize) -> InteractionSpec {
    InteractionSpec {
        fields: seq![single_main_spec(1), single_main_spec(0), single_main_spec(2)],
        count: single_main_spec(flag),
        argument_index: bus_memory,
    }
}

/// A main column's virtual column, built.
fn single(c: usize) -> (r: VirtualPairCol)
    ensures
        r@ == single_main_spec(c),
{
    let r = VirtualPairCol::single_main(c);
    assert(r@ =~~= single_main_spec(c));
    r
}

/// The count `is_read + is_write`, built.
fn is_real() -> (r: VirtualPairCol)
    ensures
        r@ == sum_main2_spec(3, 4),
{
    let mut cols: Vec<usize> = Vec::new();
    cols.push(3);
    cols.push(4);
    let r = VirtualPairCol::sum_main(cols);
    assert(r@.weights =~= sum_main2_spec(3, 4).weights);
    r
}

/// The access interaction counted by `flag`, built.
fn access(flag: usize, bus_memory: usize) -> (r: Interaction)
    ensures
        r@ == memory_access(flag, bus_memory),
{
    let mut fields: Vec<VirtualPairCol> = Vec::new();
    fields.push(single(1));
    fields.push(single(0));
    fields.push(single(2));
    let r = Interaction { fields, count: single(flag), argument_index: bus_memory };
    assert(r@.fields =~= memory_access(flag, bus_memory).fields);
    r
}

/// The range check of `limb`, built.
fn limb_check(limb: usize, bus_range_8: usize) -> (r: Interaction)
    ensures
        r@ == memory_limb_check(limb, bus_range_8),
{
    let mut fields: Vec<VirtualPairCol> = Vec::new();
    fields.push(single(limb));
    let r = Interaction { fields, count: is_real(), argument_index: bus_range_8 };
    assert(r@.fields =~= memory_limb_check(limb, bus_range_8).fields);
    r
}

impl PermutationAir for MemoryChip {
    /// Reads go out on the memory bus; each gap limb goes to the byte range
    /// check.
    open spec fn spec_sends(&self) -> Seq<InteractionSpec> {
        seq![
            memory_access(3, self.bus_memory),
            memory_limb_check(6, self.bus_range_8),
            memory_limb_check(7, self.bus_range_8),
            memory_limb_check(8, self.bus_range_8),
        ]
    }

    /// Writes come in from the memory bus.
    open spec fn spec_receives(&self) -> Seq<InteractionSpec> {
        seq![memory_access(4, self.bus_memory)]
    }

    fn sends(&self) -> (r: Vec<Interaction>) {
        let mut r: Vec<Interaction> = Vec::new();
        r.push(access(3, self.bus_memory));
        r.push(limb_check(6, self.bus_range_8));
        r.push(limb_check(7, self.bus_range_8));
        r.push(limb_check(8, self.bus_range_8));
        assert(interactions_view(r@) =~= self.spec_sends());
        r
    }

    fn receives(&self) -> (r: Vec<Interaction>) {
        let mut r: Vec<Interaction> = Vec::new();
        r.push(access(4, self.bus_memory));
        assert(interactions_view(r@) =~= self.spec_receives());
        r
    }
}

/// The memory AIR on a row and the next one, the real flag being
/// `is_read + is_write`: the real flag, `is_read` and `addr_unchanged` are
/// boolean; where `addr_unchanged` is set, the next row has the same
/// address; and a constraint that always holds keeps the AIR at degree three.
pub open spec fn memory_constraints(local: Seq<u32>, next: Seq<u32>) -> bool {
    let is_real = local[3] + local[4];
    &&& fz(is_real * (is_real - 1))
    &&& fz(local[3] * (local[3] - 1))
    &&& fz(local[5] * (local[5] - 1))
    &&& fz(local[5] * (local[0] - next[0]))
    &&& fz(is_real * (is_real * is_real - is_real * is_real))
}

/// Whether `x * (x - 1)` is zero: whether `x` is boolean.
fn is_bool(x: u32) -> (r: bool)
    requires
        x < P,
    ensures
        r == fz(x * (x - 1)),
{
    let m: u32 = f_sub(x, 1);
    proof {
        lemma_canonical_mod(x);
        lemma_congruent_add_sub(x as int, x as int, 1, 1);
        lemma_fz_congruent2(x as int, x as int, m as int, x - 1);
    }
    is_zero2(x, m)
}

impl Rap for MemoryChip {
    open spec fn spec_width(&self) -> nat {
        NUM_MEMORY_COLS as nat
    }

    open spec fn spec_preprocessed_width(&self) -> nat {
        0
    }

    /// Degree three: the constraint that always holds multiplies the real
    /// flag by a difference of two squares of it.
    open spec fn spec_constraint_degree(&self) -> nat {
        3
    }

    open spec fn spec_air_constraints(
        &self,
        preprocessed_local: Seq<u32>,
        preprocessed_next: Seq<u32>,
        local: Seq<u32>,
        next: Seq<u32>,
        is_first_row: bool,
        is_last_row: bool,
        is_transition: bool,
    ) -> bool {
        memory_constraints(local, next)
    }

    fn width(&self) -> (r: usize) {
        NUM_MEMORY_COLS
    }

    fn preprocessed_width(&self) -> (r: usize) {
        0
    }

    fn constraint_degree(&self) -> (r: usize) {
        3
    }

    fn eval(
        &self,
        preprocessed_local: &[u32],
        preprocessed_next: &[u32],
        local: &[u32],
        next: &[u32],
        is_first_row: bool,
        is_last_row: bool,
        is_transition: bool,
    ) -> (r: bool) {
        assert(local@[0] < P && local@[3] < P && local@[4] < P && local@[5] < P && next@[0] < P);
        let is_read: u32 = local[3];
        let is_write: u32 = local[4];
        let addr_unchanged: u32 = local[5];
        let is_real: u32 = f_add(is_read, is_write);
        let ghost real_int: int = is_read + is_write;
        proof {
            lemma_canonical_mod(is_real);
        }
        let real_ok = is_bool(is_real);
        proof {
            lemma_congruent_add_sub(is_real as int, real_int, 1, 1);
            lemma_fz_congruent2(is_real as int, real_int, is_real - 1, real_int - 1);
        }
        let read_ok = is_bool(is_read);
        let unchanged_ok = is_bool(addr_unchanged);
        let gap: u32 = f_sub(local[0], next[0]);
        proof {
            lemma_canonical_mod(addr_unchanged);
            lemma_fz_congruent2(addr_unchanged as int, addr_unchanged as int, gap as int, local@[0] - next@[0]);
        }
        let same_addr_ok = is_zero2(addr_unchanged, gap);
        let square: u32 = f_mul(is_real, is_real);
        let zero: u32 = f_sub(square, square);
        proof {
            lemma_fz_congruent2(is_real as int, real_int, zero as int, real_int * real_int - real_int * real_int);
        }
        let degree_ok = is_zero2(is_real, zero);
        real_ok && read_ok && unchanged_ok && same_addr_ok && degree_ok
    }
}

impl MachineChip for MemoryChip {}

/// The values of a memory row, each field at its column.
pub open spec fn memory_row_values(row: MemoryCols<u32>) -> Seq<u32> {
    seq![
        row.addr,
        row.timestamp,
        row.value,
        row.is_read,
        row.is_write,
        row.addr_unchanged,
        row.diff_limb_lo,
        row.diff_limb_md,
        row.diff_limb_hi,
    ]
}

/// The memory trace of operations at strictly increasing addresses, padded
/// to any height, meets the memory AIR on every row and the row after it,
/// the first row coming after the last.
pub proof fn memory_trace_satisfies_air(ops: Seq<MemoryOp>, height: nat)
    requires
        forall|i: int| 0 < i < ops.len() ==> #[trigger] ops[i].addr > ops[i - 1].addr,
        height >= ops.len(),
        height > 0,
    ensures
        forall|i: int|
            0 <= i < height ==> #[trigger] memory_constraints(
                memory_row_values(memory_row(ops, i)),
                memory_row_values(memory_row(ops, (i + 1) % (height as int))),
            ),
{
    assert forall|i: int| 0 <= i < height implies #[trigger] memory_constraints(
        memory_row_values(memory_row(ops, i)),
        memory_row_values(memory_row(ops, (i + 1) % (height as int))),
    ) by {
        let row = memory_row(ops, i);
        let local = memory_row_values(row);
        if i < ops.len() && i > 0 {
            assert(ops[i].addr > ops[i - 1].addr);
        }
        assert(row.addr_unchanged == 0);
        assert(row.is_read + row.is_write == 0 || row.is_read + row.is_write == 1);
        assert(row.is_read == 0 || row.is_read == 1);
        let r: int = local[3] + local[4];
        assert(r * (r - 1) == 0) by (nonlinear_arith)
            requires
                r == 0 || r == 1,
        ;
        assert(local[3] * (local[3] - 1) == 0) by (nonlinear_arith)
            requires
                local[3] == 0 || local[3] == 1,
        ;
        assert(r * (r * r - r * r) == 0) by (nonlinear_arith);
        assert(local[5] == 0);
        assert(local[5] * (local[5] - 1) == 0);
        let next = memory_row_values(memory_row(ops, (i + 1) % (height as int)));
        assert(local[5] * (local[0] - next[0]) == 0);
    }
}

/// Row `i` of the trace holds operation `i`: its address, timestamp and
/// value, and exactly one of the read and write flags, the one of its kind;
/// a padding row is neither a read nor a write.
pub open spec fn memory_row_records_operation(ops: Seq<MemoryOp>, i: int) -> bool {
    let row = memory_row(ops, i);
    let op = ops[i];
    &&& row.addr == op.addr
    &&& row.timestamp == op.timestamp
    &&& row.value == op.value as u32
    &&& row.is_read == (if op.kind == OperationKind::Read { 1u32 } else { 0u32 })
    &&& row.is_write == (if op.kind == OperationKind::Write { 1u32 } else { 0u32 })
}

/// Every operation's row records it with the flag of its own kind, whatever
/// the operations before it, and padding rows carry no flag: a write is
/// received from the memory bus and a read is sent to it.
pub proof fn lemma_memory_row_records_operation(ops: Seq<MemoryOp>, i: int)
    ensures
        0 <= i < ops.len() ==> memory_row_records_operation(ops, i),
        i >= ops.len() ==> memory_row(ops, i).is_read == 0 && memory_row(ops, i).is_write == 0,
{
}

/// Row `i` (after the first) flags whether the address is the previous
/// operation's, and its three byte limbs hold the low 24 bits of the gap:
/// the timestamp difference at the same address, else the address
/// difference minus one.
pub open spec fn memory_row_gap_ok(ops: Seq<MemoryOp>, row: MemoryCols<u32>, i: int) -> bool {
    let op = ops[i];
    let prev = ops[i - 1];
    let gap: int = if op.addr == prev.addr {
        op.timestamp - prev.timestamp
    } else {
        op.addr - prev.addr - 1
    };
    &&& row.addr_unchanged == (if op.addr == prev.addr { 1u32 } else { 0u32 })
    &&& row.diff_limb_lo < 256 && row.diff_limb_md < 256 && row.diff_limb_hi < 256
    &&& row.diff_limb_lo + 256 * row.diff_limb_md + 65536 * row.diff_limb_hi == gap % 0x100_0000
}

/// In a sorted log, every row after the first flags an unchanged address
/// exactly when the address repeats, and its limbs decompose the gap to the
/// previous operation.
pub proof fn lemma_memory_row_gap(ops: Seq<MemoryOp>, i: int)
    requires
        memory_ops_sorted(ops),
        0 < i < ops.len(),
    ensures
        memory_row_gap_ok(ops, memory_row(ops, i), i),
{
    let d = memory_diff(ops, i);
    assert(0 <= d <= u32::MAX);
    memory_diff_limbs(d as u32);
}

/// A single main column evaluates to that column's value.
pub proof fn lemma_single_main_eval(c: usize, values: Seq<u32>)
    requires
        c < values.len(),
    ensures
        vpc_eval(single_main_spec(c), seq![], values) == (values[c as int] as int) % (P as int),
{
    let w = single_main_spec(c).weights;
    assert(w.drop_last() =~= Seq::<(PairCol, u32)>::empty());
    lemma_weighted_sum_last(w, values, c, 1, 0);
}

/// The memory chip's bus messages on a row: the access `(timestamp, addr,
/// value)` goes out on the memory bus counted by the read flag and comes in
/// counted by the write flag, and each of the three gap limbs goes to the
/// byte range check on every real row.
pub proof fn memory_row_messages(chip: MemoryChip, row: MemoryCols<u32>)
    ensures
        ({
            let values = memory_row_values(row);
            let sent = chip.spec_sends();
            let received = chip.spec_receives();
            &&& sent.len() == 4 && received.len() == 1
            &&& sent[0].argument_index == chip.bus_memory && received[0].argument_index == chip.bus_memory
            &&& sent[0].fields.len() == 3 && received[0].fields.len() == 3
            &&& received[0].fields == sent[0].fields
            &&& vpc_eval(sent[0].fields[0], seq![], values) == (row.timestamp as int) % (P as int)
            &&& vpc_eval(sent[0].fields[1], seq![], values) == (row.addr as int) % (P as int)
            &&& vpc_eval(sent[0].fields[2], seq![], values) == (row.value as int) % (P as int)
            &&& vpc_eval(sent[0].count, seq![], values) == (row.is_read as int) % (P as int)
            &&& vpc_eval(received[0].count, seq![], values) == (row.is_write as int) % (P as int)
            &&& forall|k: int|
                1 <= k < 4 ==> {
                    &&& (#[trigger] sent[k]).argument_index == chip.bus_range_8
                    &&& sent[k].fields.len() == 1
                    &&& vpc_eval(sent[k].count, seq![], values) == (row.is_read + row.is_write) % (P as int)
                }
            &&& vpc_eval(sent[1].fields[0], seq![], values) == (row.diff_limb_lo as int) % (P as int)
            &&& vpc_eval(sent[2].fields[0], seq![], values) == (row.diff_limb_md as int) % (P as int)
            &&& vpc_eval(sent[3].fields[0], seq![], values) == (row.diff_limb_hi as int) % (P as int)
        }),
{
    let values = memory_row_values(row);
    lemma_single_main_eval(0, values);
    lemma_single_main_eval(1, values);
    lemma_single_main_eval(2, values);
    lemma_single_main_eval(3, values);
    lemma_single_main_eval(4, values);
    lemma_single_main_eval(6, values);
    lemma_single_main_eval(7, values);
    lemma_single_main_eval(8, values);
    let w = sum_main2_spec(3, 4).weights;
    assert(w.drop_last().drop_last() =~= Seq::<(PairCol, u32)>::empty());
    lemma_weighted_sum_last(w.drop_last(), values, 3, 1, 0);
    lemma_weighted_sum_last(w, values, 4, 1, row.is_read as int);
}

/// Where a row flags its address as unchanged, the memory AIR forces the
/// next row to the same address, in the field.
pub proof fn memory_constraints_keep_address(local: MemoryCols<u32>, next: MemoryCols<u32>)
    requires
        memory_constraints(memory_row_values(local), memory_row_values(next)),
        local.addr_unchanged == 1,
    ensures
        fz(local.addr - next.addr),
{
    assert(memory_row_values(local)[5] == 1);
    assert(fz(1 * (local.addr - next.addr)));
}

} // verus!
