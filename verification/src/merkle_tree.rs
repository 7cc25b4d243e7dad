use vstd::prelude::*;

use crate::chip::{MachineChip, Rap};
use crate::field::{
    f_add, f_mul, f_sub, fz, is_zero2, is_zero3, lemma_canonical_mod, lemma_congruent_add_sub, lemma_fz_congruent2,
    lemma_fz_congruent3, lemma_mod_congruent, P,
};
use crate::interaction::{interactions_view, row_canonical, vpc_eval, Interaction, InteractionSpec, VirtualPairCol};
use crate::keccak_sponge::{keccak_f, keccakf};
use crate::machine::compression_state;
use crate::memory::{lemma_single_main_eval, single_main_spec};
use crate::permutation_air::PermutationAir;
use crate::util::{is_next_power_of_two, le_u64, next_power_of_two};

verus! {

/// The number of bytes of a digest.
pub const NUM_U8_HASH_ELEMS: usize = 32;
/// The number of 64-bit lanes of a digest.
pub const NUM_U64_HASH_ELEMS: usize = 4;
/// The number of 16-bit limbs of a lane.
pub const U64_LIMBS: usize = 4;

/// The Merkle tree chip: checks authentication paths of leaves by
/// compressing each node with its sibling up to the root.
#[derive(Clone, Debug)]
pub struct MerkleTreeChip {
    pub leaves: Vec<[u8; 32]>,
    pub leaf_indices: Vec<usize>,
    pub siblings: Vec<Vec<[u8; 32]>>,
    pub bus_keccak_permute_input: usize,
    pub bus_keccak_digest_output: usize,
}

/// One row of the Merkle tree trace: one compression on a path. Digests
/// are held as four lanes of four 16-bit limbs.
pub struct MerkleTreeCols<T> {
    pub is_real: T,
    /// 1 on the last compression of a path.
    pub is_final_step: T,
    pub node: [[T; 4]; 4],
    pub sibling: [[T; 4]; 4],
    /// 1 when the node is the right child.
    pub parity_selector: T,
    pub left_node: [[T; 4]; 4],
    pub right_node: [[T; 4]; 4],
    pub output: [[T; 4]; 4],
}

/// The number of columns of the Merkle tree trace.
pub const NUM_MERKLE_TREE_COLS: usize = 83;

/// The 2-to-1 compression of two digests: Keccak-f on the state whose first
/// eight lanes are the two digests, truncated to its first four lanes.
pub open spec fn compress_spec(left: Seq<u8>, right: Seq<u8>) -> Seq<u8> {
    let input = Seq::new(
        25,
        |k: int|
            if k < 4 {
                le_u64(left.subrange(8 * k, 8 * k + 8)) as u64
            } else if k < 8 {
                le_u64(right.subrange(8 * (k - 4), 8 * (k - 4) + 8)) as u64
            } else {
                0u64
            },
    );
    let out = keccak_f(input);
    Seq::new(32, |j: int| (out[j / 8] >> ((8 * (j % 8)) as u64)) as u8)
}

/// Compresses two digests.
pub fn compress(left: &[u8; 32], right: &[u8; 32]) -> (out: [u8; 32])
    ensures
        out@ == compress_spec(left@, right@),
{
    let input = compression_state(left, right);
    assert(input@ =~= Seq::new(
        25,
        |k: int|
            if k < 4 {
                le_u64(left@.subrange(8 * k, 8 * k + 8)) as u64
            } else if k < 8 {
                le_u64(right@.subrange(8 * (k - 4), 8 * (k - 4) + 8)) as u64
            } else {
                0u64
            },
    ));
    let state = keccakf(input);
    let mut out = [0u8; 32];
    for j in 0..32
        invariant
            state@ == keccak_f(input@),
            state@.len() == 25,
            forall|m: int| 0 <= m < j ==> #[trigger] out[m] == (state@[m / 8] >> ((8 * (m % 8)) as u64)) as u8,
    {
        out[j] = (state[j / 8] >> ((8 * (j % 8)) as u64)) as u8;
    }
    assert(out@ =~= compress_spec(left@, right@));
    out
}

/// Limb `j` of lane `i` of a digest.
pub open spec fn digest_limb(d: Seq<u8>, i: int, j: int) -> u32 {
    (d[8 * i + 2 * j] + 256 * d[8 * i + 2 * j + 1]) as u32
}

/// `cols` holds the digest `d` as limbs.
pub open spec fn holds_digest(cols: [[u32; 4]; 4], d: Seq<u8>) -> bool {
    forall|i: int, j: int| 0 <= i < 4 && 0 <= j < 4 ==> #[trigger] cols[i][j] == digest_limb(d, i, j)
}

/// The digests of a list, as byte sequences.
pub open spec fn digests_view(s: Seq<[u8; 32]>) -> Seq<Seq<u8>> {
    s.map_values(|d: [u8; 32]| d@)
}

/// Whether the node at `level` of the path of `leaf_index` is a right child.
pub open spec fn parity_at(leaf_index: usize, level: int) -> usize {
    (leaf_index >> (level as usize)) & 1
}

/// The node at `level` of the path: the leaf, then each compression.
pub open spec fn path_node(leaf: Seq<u8>, leaf_index: usize, siblings: Seq<Seq<u8>>, level: nat) -> Seq<u8>
    decreases level,
{
    if level == 0 {
        leaf
    } else {
        let below = path_node(leaf, leaf_index, siblings, (level - 1) as nat);
        let sibling = siblings[level - 1];
        if parity_at(leaf_index, level - 1) == 0 {
            compress_spec(below, sibling)
        } else {
            compress_spec(sibling, below)
        }
    }
}

/// The children compressed at `level`: the node and its sibling, ordered
/// by the parity of the node's index.
pub open spec fn path_children(leaf: Seq<u8>, leaf_index: usize, siblings: Seq<Seq<u8>>, level: nat) -> (
    Seq<u8>,
    Seq<u8>,
) {
    let node = path_node(leaf, leaf_index, siblings, level);
    let sibling = siblings[level as int];
    if parity_at(leaf_index, level as int) == 0 {
        (node, sibling)
    } else {
        (sibling, node)
    }
}

/// `row` is the compression at `level` of the path of `leaf`.
pub open spec fn merkle_row_of(
    row: MerkleTreeCols<u32>,
    leaf: Seq<u8>,
    leaf_index: usize,
    siblings: Seq<Seq<u8>>,
    level: int,
    is_real: u32,
) -> bool {
    let (l, r) = path_children(leaf, leaf_index, siblings, level as nat);
    &&& row.is_real == is_real
    &&& row.is_final_step == if level == siblings.len() - 1 { 1u32 } else { 0u32 }
    &&& holds_digest(row.node, path_node(leaf, leaf_index, siblings, level as nat))
    &&& holds_digest(row.sibling, siblings[level])
    &&& row.parity_selector == parity_at(leaf_index, level) as u32
    &&& holds_digest(row.left_node, l)
    &&& holds_digest(row.right_node, r)
    &&& holds_digest(row.output, compress_spec(l, r))
}

/// The limbs of a digest.
fn digest_limbs(d: &[u8; 32]) -> (cols: [[u32; 4]; 4])
    ensures
        holds_digest(cols, d@),
{
    let mut cols = [[0u32; 4]; 4];
    for i in 0..4
        invariant
            forall|a: int, b: int| 0 <= a < i && 0 <= b < 4 ==> #[trigger] cols[a][b] == digest_limb(d@, a, b),
    {
        let mut lane = [0u32; 4];
        for j in 0..4
            invariant
                i < 4,
                forall|b: int| 0 <= b < j ==> #[trigger] lane[b] == digest_limb(d@, i as int, b),
        {
            lane[j] = d[8 * i + 2 * j] as u32 + 256 * (d[8 * i + 2 * j + 1] as u32);
        }
        let ghost old_cols = cols;
        cols[i] = lane;
        assert forall|a: int, b: int| 0 <= a < i + 1 && 0 <= b < 4 implies #[trigger] cols[a][b]
            == digest_limb(d@, a, b) by {
            if a < i {
                assert(cols[a] == old_cols[a]);
            }
        }
    }
    cols
}

/// The rows of the path of one leaf: one compression per sibling.
fn generate_trace_rows_for_leaf(
    leaf: &[u8; 32],
    leaf_index: usize,
    siblings: &Vec<[u8; 32]>,
    is_real: u32,
) -> (rows: Vec<MerkleTreeCols<u32>>)
    requires
        siblings.len() <= usize::BITS,
    ensures
        rows.len() == siblings.len(),
        forall|level: int|
            0 <= level < rows.len() ==> merkle_row_of(#[trigger] rows[level], leaf@, leaf_index, digests_view(siblings@), level, is_real),
{
    let mut rows: Vec<MerkleTreeCols<u32>> = Vec::new();
    let mut node = *leaf;
    let mut i: usize = 0;
    while i < siblings.len()
        invariant
            i <= siblings.len(),
            siblings.len() <= usize::BITS,
            rows.len() == i,
            node@ == path_node(leaf@, leaf_index, digests_view(siblings@), i as nat),
            forall|level: int|
                0 <= level < i ==> merkle_row_of(#[trigger] rows[level], leaf@, leaf_index, digests_view(siblings@), level, is_real),
        decreases siblings.len() - i,
    {
        let sibling = siblings[i];
        let parity = (leaf_index >> i) & 1;
        let (left, right) = if parity == 0 {
            (node, sibling)
        } else {
            (sibling, node)
        };
        let output = compress(&left, &right);
        let row = MerkleTreeCols {
            is_real,
            is_final_step: if i == siblings.len() - 1 { 1 } else { 0 },
            node: digest_limbs(&node),
            sibling: digest_limbs(&sibling),
            parity_selector: parity as u32,
            left_node: digest_limbs(&left),
            right_node: digest_limbs(&right),
            output: digest_limbs(&output),
        };
        assert(merkle_row_of(row, leaf@, leaf_index, digests_view(siblings@), i as int, is_real));
        rows.push(row);
        node = output;
        i = i + 1;
    }
    rows
}

/// The number of rows of the paths before path `k`.
pub open spec fn path_offset(siblings: Seq<Vec<[u8; 32]>>, k: int) -> nat
    decreases k,
{
    if k <= 0 {
        0
    } else {
        path_offset(siblings, k - 1) + siblings[k - 1]@.len()
    }
}

/// The number of real rows: one per sibling of every path.
pub open spec fn num_real_rows(chip: MerkleTreeChip) -> nat {
    path_offset(chip.siblings@, chip.siblings.len() as int)
}

/// The number of paths the trace holds: the leaves, their indices and their
/// sibling lists are taken together, up to the shortest of the three.
pub open spec fn num_paths(chip: MerkleTreeChip) -> int {
    let a = chip.leaves.len();
    let b = chip.leaf_indices.len();
    let c = chip.siblings.len();
    if a <= b && a <= c {
        a as int
    } else if b <= c {
        b as int
    } else {
        c as int
    }
}

/// Row `level` of path `k` sits after the rows of the paths before it and
/// is that compression, marked real.
pub open spec fn path_row_ok(chip: MerkleTreeChip, rows: Seq<MerkleTreeCols<u32>>, k: int, level: int) -> bool {
    merkle_row_of(
        rows[path_offset(chip.siblings@, k) + level],
        chip.leaves[k]@,
        chip.leaf_indices[k],
        digests_view(chip.siblings[k]@),
        level,
        1,
    )
}

/// The digest of 32 zero bytes.
pub open spec fn zero_digest() -> Seq<u8> {
    Seq::new(32, |i: int| 0u8)
}

/// A row whose columns are all zero.
pub open spec fn is_zero_merkle_row(row: MerkleTreeCols<u32>) -> bool {
    &&& row.is_real == 0
    &&& row.is_final_step == 0
    &&& row.parity_selector == 0
    &&& forall|i: int, j: int|
        0 <= i < 4 && 0 <= j < 4 ==> {
            &&& #[trigger] row.node[i][j] == 0
            &&& row.sibling[i][j] == 0
            &&& row.left_node[i][j] == 0
            &&& row.right_node[i][j] == 0
            &&& row.output[i][j] == 0
        }
}

/// A padding row: the compression of the zero digest with a zero sibling,
/// not marked real.
pub open spec fn merkle_padding_row(row: MerkleTreeCols<u32>) -> bool {
    merkle_row_of(row, zero_digest(), 0, seq![zero_digest()], 0, 0)
}

proof fn lemma_path_offset_monotone(siblings: Seq<Vec<[u8; 32]>>, a: int, b: int)
    requires
        0 <= a <= b,
    ensures
        path_offset(siblings, a) <= path_offset(siblings, b),
    decreases b - a,
{
    if a < b {
        lemma_path_offset_monotone(siblings, a, b - 1);
    }
}

/// An all-zero row.
fn zero_merkle_row() -> (row: MerkleTreeCols<u32>)
    ensures
        is_zero_merkle_row(row),
{
    MerkleTreeCols {
        is_real: 0,
        is_final_step: 0,
        node: [[0u32; 4]; 4],
        sibling: [[0u32; 4]; 4],
        parity_selector: 0,
        left_node: [[0u32; 4]; 4],
        right_node: [[0u32; 4]; 4],
        output: [[0u32; 4]; 4],
    }
}

impl MerkleTreeChip {
    /// The Merkle tree trace: the rows of each path in turn, marked real;
    /// zero rows where paths are missing; then padding rows up to the next
    /// power of two of the number of siblings.
    pub fn generate_trace(&self) -> (rows: Vec<MerkleTreeCols<u32>>)
        requires
            num_real_rows(*self) <= usize::MAX / 2 + 1,
            forall|k: int| 0 <= k < num_paths(*self) ==> #[trigger] self.siblings[k].len() <= usize::BITS,
        ensures
            is_merkle_trace(*self, rows@),
    {
        // The number of real rows.
        let mut total: usize = 0;
        let mut k: usize = 0;
        while k < self.siblings.len()
            invariant
                k <= self.siblings.len(),
                total == path_offset(self.siblings@, k as int),
                num_real_rows(*self) <= usize::MAX / 2 + 1,
            decreases self.siblings.len() - k,
        {
            proof {
                lemma_path_offset_monotone(self.siblings@, k + 1, self.siblings.len() as int);
            }
            total = total + self.siblings[k].len();
            k = k + 1;
        }
        let num_rows = next_power_of_two(total);
        let n = if self.leaves.len() <= self.leaf_indices.len() && self.leaves.len() <= self.siblings.len() {
            self.leaves.len()
        } else if self.leaf_indices.len() <= self.siblings.len() {
            self.leaf_indices.len()
        } else {
            self.siblings.len()
        };
        let mut rows: Vec<MerkleTreeCols<u32>> = Vec::new();
        let mut k: usize = 0;
        while k < n
            invariant
                k <= n,
                n == num_paths(*self),
                n <= self.siblings.len(),
                forall|k2: int| 0 <= k2 < num_paths(*self) ==> #[trigger] self.siblings[k2].len() <= usize::BITS,
                rows.len() == path_offset(self.siblings@, k as int),
                forall|k2: int, level: int|
                    0 <= k2 < k && 0 <= level < self.siblings[k2].len() ==> #[trigger] path_row_ok(
                        *self,
                        rows@,
                        k2,
                        level,
                    ),
            decreases n - k,
        {
            let mut leaf_rows = generate_trace_rows_for_leaf(
                &self.leaves[k],
                self.leaf_indices[k],
                &self.siblings[k],
                1,
            );
            let ghost before = rows@;
            let ghost added = leaf_rows@;
            rows.append(&mut leaf_rows);
            assert forall|k2: int, level: int|
                0 <= k2 < k + 1 && 0 <= level < self.siblings[k2].len() implies #[trigger] path_row_ok(
                *self,
                rows@,
                k2,
                level,
            ) by {
                if k2 < k {
                    lemma_path_offset_monotone(self.siblings@, k2 + 1, k as int);
                    assert(path_row_ok(*self, before, k2, level));
                    assert(rows@[path_offset(self.siblings@, k2) + level] == before[path_offset(
                        self.siblings@,
                        k2,
                    ) + level]);
                } else {
                    assert(rows@[path_offset(self.siblings@, k2) + level] == added[level]);
                }
            }
            k = k + 1;
        }
        proof {
            lemma_path_offset_monotone(self.siblings@, n as int, self.siblings.len() as int);
        }
        let ghost real_rows = rows@;
        // Paths that are missing leave their rows zero.
        while rows.len() < total
            invariant
                path_offset(self.siblings@, n as int) <= rows.len() <= total,
                total == num_real_rows(*self),
                real_rows.len() == path_offset(self.siblings@, n as int),
                forall|i: int| 0 <= i < real_rows.len() ==> #[trigger] rows@[i] == real_rows[i],
                forall|i: int| real_rows.len() <= i < rows.len() ==> is_zero_merkle_row(#[trigger] rows[i]),
            decreases total - rows.len(),
        {
            rows.push(zero_merkle_row());
        }
        let ghost prefix = rows@;
        // Padding rows.
        while rows.len() < num_rows
            invariant
                total <= rows.len() <= num_rows,
                total == num_real_rows(*self),
                prefix.len() == total,
                forall|i: int| 0 <= i < total ==> #[trigger] rows@[i] == prefix[i],
                forall|i: int| total <= i < rows.len() ==> merkle_padding_row(#[trigger] rows[i]),
            decreases num_rows - rows.len(),
        {
            let zero = [0u8; 32];
            let mut zero_siblings: Vec<[u8; 32]> = Vec::new();
            zero_siblings.push(zero);
            let mut pad = generate_trace_rows_for_leaf(&zero, 0, &zero_siblings, 0);
            proof {
                assert(zero@ =~= zero_digest());
                assert(digests_view(zero_siblings@) =~= seq![zero_digest()]);
            }
            let ghost before = rows@;
            rows.append(&mut pad);
            assert(forall|i: int| 0 <= i < before.len() ==> #[trigger] rows@[i] == before[i]);
        }
        assert forall|k2: int, level: int|
            0 <= k2 < num_paths(*self) && 0 <= level < self.siblings[k2].len() implies #[trigger] path_row_ok(
            *self,
            rows@,
            k2,
            level,
        ) by {
            lemma_path_offset_monotone(self.siblings@, k2 + 1, n as int);
            assert(path_row_ok(*self, real_rows, k2, level));
            assert(rows@[path_offset(self.siblings@, k2) + level] == real_rows[path_offset(self.siblings@, k2) + level]);
        }
        rows
    }
}

/// The column of `is_real`, `is_final_step` and `parity_selector`, and the
/// first columns of the digests.
pub const MERKLE_IS_REAL: usize = 0;
pub const MERKLE_IS_FINAL_STEP: usize = 1;
pub const MERKLE_NODE: usize = 2;
pub const MERKLE_SIBLING: usize = 18;
pub const MERKLE_PARITY_SELECTOR: usize = 34;
pub const MERKLE_LEFT_NODE: usize = 35;
pub const MERKLE_RIGHT_NODE: usize = 51;
pub const MERKLE_OUTPUT: usize = 67;

/// The sixteen limbs of a digest, lane by lane.
pub open spec fn flat_limbs(d: [[u32; 4]; 4]) -> Seq<u32> {
    Seq::new(16, |k: int| d[k / 4][k % 4])
}

/// The values of a row, each field at its column.
pub open spec fn merkle_row_values(row: MerkleTreeCols<u32>) -> Seq<u32> {
    seq![row.is_real, row.is_final_step] + flat_limbs(row.node) + flat_limbs(row.sibling) + seq![
        row.parity_selector,
    ] + flat_limbs(row.left_node) + flat_limbs(row.right_node) + flat_limbs(row.output)
}

/// Appends the limbs of a digest.
fn push_limbs(r: &mut Vec<u32>, d: &[[u32; 4]; 4])
    ensures
        final(r)@ == old(r)@ + flat_limbs(*d),
{
    let ghost start = r@;
    for k in 0..16
        invariant
            r@.len() == start.len() + k,
            forall|m: int| 0 <= m < start.len() ==> #[trigger] r@[m] == start[m],
            forall|m: int| 0 <= m < k ==> #[trigger] r@[start.len() + m] == flat_limbs(*d)[m],
    {
        r.push(d[k / 4][k % 4]);
    }
    assert forall|i: int| start.len() <= i < r@.len() implies r@[i] == (start + flat_limbs(*d))[i] by {
        assert(r@[start.len() + (i - start.len())] == flat_limbs(*d)[i - start.len()]);
    }
    assert(r@ =~= start + flat_limbs(*d));
}

impl MerkleTreeCols<u32> {
    /// The row as a slice of values, each field at its column.
    pub fn to_row(&self) -> (r: Vec<u32>)
        ensures
            r@ == merkle_row_values(*self),
            r@.len() == NUM_MERKLE_TREE_COLS,
    {
        let mut r: Vec<u32> = Vec::new();
        r.push(self.is_real);
        r.push(self.is_final_step);
        push_limbs(&mut r, &self.node);
        push_limbs(&mut r, &self.sibling);
        r.push(self.parity_selector);
        push_limbs(&mut r, &self.left_node);
        push_limbs(&mut r, &self.right_node);
        push_limbs(&mut r, &self.output);
        assert(r@ =~= merkle_row_values(*self));
        r
    }
}

/// The two children of each compression, sent to the permutation.
pub open spec fn merkle_permute_input(bus: usize) -> InteractionSpec {
    InteractionSpec {
        fields: Seq::new(32, |k: int| single_main_spec((35 + k) as usize)),
        count: single_main_spec(0),
        argument_index: bus,
    }
}

/// The output digest of each compression, received from the permutation.
pub open spec fn merkle_digest_output(bus: usize) -> InteractionSpec {
    InteractionSpec {
        fields: Seq::new(16, |k: int| single_main_spec((67 + k) as usize)),
        count: single_main_spec(0),
        argument_index: bus,
    }
}

/// The interaction of `len` consecutive main columns from `first`, counted
/// by `is_real`, built.
fn consecutive_columns(first: usize, len: usize, bus: usize) -> (r: Interaction)
    requires
        first + len <= usize::MAX,
    ensures
        r@.fields.len() == len,
        forall|k: int| 0 <= k < len ==> #[trigger] r@.fields[k] == single_main_spec((first + k) as usize),
        r@.count == single_main_spec(0),
        r@.argument_index == bus,
{
    let mut fields: Vec<VirtualPairCol> = Vec::new();
    for k in 0..len
        invariant
            first + len <= usize::MAX,
            fields.len() == k,
            forall|m: int| 0 <= m < k ==> (#[trigger] fields[m])@ == single_main_spec((first + m) as usize),
    {
        let v = VirtualPairCol::single_main(first + k);
        assert(v@ =~~= single_main_spec((first + k) as usize));
        fields.push(v);
    }
    let count = VirtualPairCol::single_main(MERKLE_IS_REAL);
    assert(count@ =~~= single_main_spec(0));
    Interaction { fields, count, argument_index: bus }
}

impl PermutationAir for MerkleTreeChip {
    /// Each real row sends its left and right children to the permutation.
    open spec fn spec_sends(&self) -> Seq<InteractionSpec> {
        seq![merkle_permute_input(self.bus_keccak_permute_input)]
    }

    /// Each real row receives its output digest.
    open spec fn spec_receives(&self) -> Seq<InteractionSpec> {
        seq![merkle_digest_output(self.bus_keccak_digest_output)]
    }

    fn sends(&self) -> (r: Vec<Interaction>) {
        let i = consecutive_columns(MERKLE_LEFT_NODE, 32, self.bus_keccak_permute_input);
        assert(i@.fields =~= merkle_permute_input(self.bus_keccak_permute_input).fields);
        let mut r: Vec<Interaction> = Vec::new();
        r.push(i);
        assert(interactions_view(r@) =~= self.spec_sends());
        r
    }

    fn receives(&self) -> (r: Vec<Interaction>) {
        let i = consecutive_columns(MERKLE_OUTPUT, 16, self.bus_keccak_digest_output);
        assert(i@.fields =~= merkle_digest_output(self.bus_keccak_digest_output).fields);
        let mut r: Vec<Interaction> = Vec::new();
        r.push(i);
        assert(interactions_view(r@) =~= self.spec_receives());
        r
    }
}

/// Every value of a row is a canonical field element.
pub open spec fn merkle_row_canonical(row: MerkleTreeCols<u32>) -> bool {
    &&& row.is_real < P
    &&& row.is_final_step < P
    &&& row.parity_selector < P
    &&& forall|i: int, j: int|
        0 <= i < 4 && 0 <= j < 4 ==> {
            &&& #[trigger] row.node[i][j] < P
            &&& row.sibling[i][j] < P
            &&& row.left_node[i][j] < P
            &&& row.right_node[i][j] < P
            &&& row.output[i][j] < P
        }
}

/// The left child constraint of limb `(i, j)`: on a real row the left child
/// is the node, or the sibling when the parity selector is set.
pub open spec fn merkle_left_ok(l: MerkleTreeCols<u32>, i: int, j: int) -> bool {
    fz(
        l.is_real * (l.node[i][j] - l.parity_selector * (l.node[i][j] - l.sibling[i][j])
            - l.left_node[i][j]),
    )
}

/// The right child constraint of limb `(i, j)`.
pub open spec fn merkle_right_ok(l: MerkleTreeCols<u32>, i: int, j: int) -> bool {
    fz(
        l.is_real * (l.sibling[i][j] + l.parity_selector * (l.node[i][j] - l.sibling[i][j])
            - l.right_node[i][j]),
    )
}

/// Both selection constraints of limb `(i, j)`.
pub open spec fn merkle_select_ok(l: MerkleTreeCols<u32>, i: int, j: int) -> bool {
    merkle_left_ok(l, i, j) && merkle_right_ok(l, i, j)
}

/// The copy constraint of limb `(i, j)`: on a real row that is not a path's
/// last, the output is the next row's node.
pub open spec fn merkle_copy_ok(l: MerkleTreeCols<u32>, n: MerkleTreeCols<u32>, i: int, j: int) -> bool {
    fz(l.is_real * (l.is_final_step - 1) * (l.output[i][j] - n.node[i][j]))
}

/// The constraints of the Merkle tree AIR on a row and the next one.
pub open spec fn merkle_constraints(l: MerkleTreeCols<u32>, n: MerkleTreeCols<u32>, is_transition: bool) -> bool {
    &&& fz(l.is_real * (l.is_real - 1))
    &&& forall|i: int, j: int| 0 <= i < 4 && 0 <= j < 4 ==> #[trigger] merkle_left_ok(l, i, j)
    &&& forall|i: int, j: int| 0 <= i < 4 && 0 <= j < 4 ==> #[trigger] merkle_right_ok(l, i, j)
    &&& is_transition ==> forall|i: int, j: int|
        0 <= i < 4 && 0 <= j < 4 ==> #[trigger] merkle_copy_ok(l, n, i, j)
}

/// `a - s * (a - b)` and `b + s * (a - b)` computed by steps modulo `P`.
proof fn lemma_select(a: int, b: int, s: int, diff: int, prod: int, left: int, right: int)
    requires
        diff == (a - b) % (P as int),
        prod == (s * diff) % (P as int),
        left == (a - prod) % (P as int),
        right == (b + prod) % (P as int),
    ensures
        left == (a - s * (a - b)) % (P as int),
        right == (b + s * (a - b)) % (P as int),
{
    vstd::arithmetic::div_mod::lemma_mul_mod_noop_right(s, a - b, P as int);
    lemma_mod_congruent(s * (a - b));
    lemma_congruent_add_sub(a, a, prod, s * (a - b));
    lemma_congruent_add_sub(b, b, prod, s * (a - b));
}

/// The left and right constraints of one limb.
fn check_select(l: &MerkleTreeCols<u32>, i: usize, j: usize) -> (r: bool)
    requires
        merkle_row_canonical(*l),
        i < 4,
        j < 4,
    ensures
        r == merkle_select_ok(*l, i as int, j as int),
{
    let node = l.node[i][j];
    let sibling = l.sibling[i][j];
    assert(node < P && sibling < P && l.left_node[i as int][j as int] < P && l.right_node[i as int][j as int] < P);
    let diff = f_sub(node, sibling);
    let prod = f_mul(l.parity_selector, diff);
    let left = f_sub(node, prod);
    let right = f_add(sibling, prod);
    let c_left = f_sub(left, l.left_node[i][j]);
    let c_right = f_sub(right, l.right_node[i][j]);
    proof {
        lemma_select(node as int, sibling as int, l.parity_selector as int, diff as int, prod as int, left as int, right as int);
        let s = l.parity_selector as int;
        let e_left = node - s * (node - sibling);
        let e_right = sibling + s * (node - sibling);
        lemma_mod_congruent(e_left);
        lemma_mod_congruent(e_right);
        lemma_congruent_add_sub(left as int, e_left, l.left_node[i as int][j as int] as int, l.left_node[i as int][j as int] as int);
        lemma_congruent_add_sub(right as int, e_right, l.right_node[i as int][j as int] as int, l.right_node[i as int][j as int] as int);
        lemma_mod_congruent(left - l.left_node[i as int][j as int]);
        lemma_mod_congruent(right - l.right_node[i as int][j as int]);
        lemma_fz_congruent2(l.is_real as int, l.is_real as int, c_left as int, e_left - l.left_node[i as int][j as int]);
        lemma_fz_congruent2(l.is_real as int, l.is_real as int, c_right as int, e_right - l.right_node[i as int][j as int]);
    }
    is_zero2(l.is_real, c_left) && is_zero2(l.is_real, c_right)
}

impl MerkleTreeChip {
    /// Whether a row and the next one satisfy the constraints of the Merkle
    /// tree AIR; `is_transition` is false on the last row.
    pub fn eval_cols(&self, local: &MerkleTreeCols<u32>, next: &MerkleTreeCols<u32>, is_transition: bool) -> (r: bool)
        requires
            merkle_row_canonical(*local),
            merkle_row_canonical(*next),
        ensures
            r == merkle_constraints(*local, *next, is_transition),
    {
        let d = f_sub(local.is_real, 1);
        proof {
            lemma_mod_congruent(local.is_real - 1);
            lemma_fz_congruent2(local.is_real as int, local.is_real as int, d as int, local.is_real - 1);
        }
        let is_bool = is_zero2(local.is_real, d);
        let not_final = f_sub(local.is_final_step, 1);
        proof {
            lemma_mod_congruent(local.is_final_step - 1);
        }
        let mut ok_select = true;
        let mut ok_copy = true;
        for i in 0..4
            invariant
                merkle_row_canonical(*local),
                merkle_row_canonical(*next),
                not_final == (local.is_final_step - 1) % (P as int),
                not_final < P,
                ok_select == forall|a: int, b: int|
                    0 <= a < i && 0 <= b < 4 ==> #[trigger] merkle_select_ok(*local, a, b),
                ok_copy == forall|a: int, b: int| 0 <= a < i && 0 <= b < 4 ==> #[trigger] merkle_copy_ok(*local, *next, a, b),
        {
            for j in 0..4
                invariant
                    i < 4,
                    merkle_row_canonical(*local),
                    merkle_row_canonical(*next),
                    not_final == (local.is_final_step - 1) % (P as int),
                    not_final < P,
                    ok_select == forall|a: int, b: int|
                        (0 <= a < i && 0 <= b < 4) || (a == i && 0 <= b < j) ==> #[trigger] merkle_select_ok(*local, a, b),
                    ok_copy == forall|a: int, b: int|
                        (0 <= a < i && 0 <= b < 4) || (a == i && 0 <= b < j) ==> #[trigger] merkle_copy_ok(*local, *next, a, b),
            {
                let sel = check_select(local, i, j);
                assert(local.output[i as int][j as int] < P && next.node[i as int][j as int] < P);
                let c = f_sub(local.output[i][j], next.node[i][j]);
                proof {
                    let e = local.output[i as int][j as int] - next.node[i as int][j as int];
                    lemma_mod_congruent(e);
                    lemma_canonical_mod(local.is_real);
                    lemma_fz_congruent3(
                        local.is_real as int,
                        local.is_real as int,
                        not_final as int,
                        local.is_final_step - 1,
                        c as int,
                        e,
                    );
                }
                let copy = is_zero3(local.is_real, not_final, c);
                assert(copy == merkle_copy_ok(*local, *next, i as int, j as int));
                ok_select = ok_select && sel;
                ok_copy = ok_copy && copy;
            }
        }
        assert(ok_select == ((forall|a: int, b: int| 0 <= a < 4 && 0 <= b < 4 ==> #[trigger] merkle_left_ok(*local, a, b))
            && (forall|a: int, b: int| 0 <= a < 4 && 0 <= b < 4 ==> #[trigger] merkle_right_ok(*local, a, b)))) by {
            if !ok_select {
                let (a, b) = choose|a: int, b: int| 0 <= a < 4 && 0 <= b < 4 && !#[trigger] merkle_select_ok(*local, a, b);
                assert(!merkle_left_ok(*local, a, b) || !merkle_right_ok(*local, a, b));
            } else {
                assert forall|a: int, b: int| 0 <= a < 4 && 0 <= b < 4 implies #[trigger] merkle_left_ok(*local, a, b) by {
                    assert(merkle_select_ok(*local, a, b));
                }
                assert forall|a: int, b: int| 0 <= a < 4 && 0 <= b < 4 implies #[trigger] merkle_right_ok(*local, a, b) by {
                    assert(merkle_select_ok(*local, a, b));
                }
            }
        }
        is_bool && ok_select && (!is_transition || ok_copy)
    }
}

/// `rows` is the trace that [`MerkleTreeChip::generate_trace`] builds for
/// `chip`.
pub open spec fn is_merkle_trace(chip: MerkleTreeChip, rows: Seq<MerkleTreeCols<u32>>) -> bool {
    &&& is_next_power_of_two(num_real_rows(chip), rows.len() as nat)
    &&& forall|k: int, level: int|
        0 <= k < num_paths(chip) && 0 <= level < chip.siblings[k].len() ==> #[trigger] path_row_ok(
            chip,
            rows,
            k,
            level,
        )
    &&& forall|i: int|
        path_offset(chip.siblings@, num_paths(chip)) <= i < num_real_rows(chip) ==> is_zero_merkle_row(
            #[trigger] rows[i],
        )
    &&& forall|i: int| num_real_rows(chip) <= i < rows.len() ==> merkle_padding_row(#[trigger] rows[i])
}

/// The path and level of a row among the rows of the first `n` paths.
proof fn lemma_locate_row(siblings: Seq<Vec<[u8; 32]>>, n: int, r: int) -> (kl: (int, int))
    requires
        0 <= n,
        0 <= r < path_offset(siblings, n),
    ensures
        0 <= kl.0 < n,
        0 <= kl.1 < siblings[kl.0]@.len(),
        path_offset(siblings, kl.0) + kl.1 == r,
    decreases n,
{
    if r < path_offset(siblings, n - 1) {
        lemma_locate_row(siblings, n - 1, r)
    } else {
        (n - 1, r - path_offset(siblings, n - 1))
    }
}

/// The local constraints of a compression row hold, real or not.
proof fn lemma_row_local(
    row: MerkleTreeCols<u32>,
    leaf: Seq<u8>,
    leaf_index: usize,
    siblings: Seq<Seq<u8>>,
    level: int,
    is_real: u32,
)
    requires
        merkle_row_of(row, leaf, leaf_index, siblings, level, is_real),
        is_real <= 1,
        0 <= level,
    ensures
        fz(row.is_real * (row.is_real - 1)),
        forall|i: int, j: int| 0 <= i < 4 && 0 <= j < 4 ==> #[trigger] merkle_left_ok(row, i, j),
        forall|i: int, j: int| 0 <= i < 4 && 0 <= j < 4 ==> #[trigger] merkle_right_ok(row, i, j),
{
    let p = parity_at(leaf_index, level);
    assert(p <= 1) by {
        let x = leaf_index;
        let y = #[verifier::truncate] (level as usize);
        assert((x >> y) & 1usize <= 1usize) by (bit_vector);
    }
    assert(row.is_real * (row.is_real - 1) == 0) by (nonlinear_arith)
        requires
            row.is_real <= 1,
    ;
    let (lc, rc) = path_children(leaf, leaf_index, siblings, level as nat);
    let node_seq = path_node(leaf, leaf_index, siblings, level as nat);
    assert forall|i: int, j: int| 0 <= i < 4 && 0 <= j < 4 implies #[trigger] merkle_select_ok(row, i, j) by {
        let a = row.node[i][j] as int;
        let b = row.sibling[i][j] as int;
        let s = row.parity_selector as int;
        assert(a == digest_limb(node_seq, i, j));
        assert(b == digest_limb(siblings[level], i, j));
        assert(row.left_node[i][j] == digest_limb(lc, i, j));
        assert(row.right_node[i][j] == digest_limb(rc, i, j));
        if p == 0 {
            assert(lc == node_seq && rc == siblings[level]);
        } else {
            assert(lc == siblings[level] && rc == node_seq);
        }
        assert(a - s * (a - b) - row.left_node[i][j] == 0 && b + s * (a - b) - row.right_node[i][j] == 0)
            by (nonlinear_arith)
            requires
                s == 0 || s == 1,
                s == 0 ==> row.left_node[i][j] == a && row.right_node[i][j] == b,
                s == 1 ==> row.left_node[i][j] == b && row.right_node[i][j] == a,
        ;
        assert(row.is_real * 0int == 0) by (nonlinear_arith);
    }
    assert forall|i: int, j: int| 0 <= i < 4 && 0 <= j < 4 implies #[trigger] merkle_left_ok(row, i, j) by {
        assert(merkle_select_ok(row, i, j));
    }
    assert forall|i: int, j: int| 0 <= i < 4 && 0 <= j < 4 implies #[trigger] merkle_right_ok(row, i, j) by {
        assert(merkle_select_ok(row, i, j));
    }
}

/// A row whose `is_real` is zero satisfies every constraint.
proof fn lemma_unreal_row(l: MerkleTreeCols<u32>, n: MerkleTreeCols<u32>, is_transition: bool)
    requires
        l.is_real == 0,
    ensures
        merkle_constraints(l, n, is_transition),
{
    assert forall|i: int, j: int| 0 <= i < 4 && 0 <= j < 4 implies #[trigger] merkle_copy_ok(l, n, i, j) by {
        assert(0int * (l.is_final_step - 1) * (l.output[i][j] - n.node[i][j]) == 0) by (nonlinear_arith);
    }
    assert forall|i: int, j: int| 0 <= i < 4 && 0 <= j < 4 implies #[trigger] merkle_left_ok(l, i, j)
        && merkle_right_ok(l, i, j) by {
        assert(0int * (l.node[i][j] - l.parity_selector * (l.node[i][j] - l.sibling[i][j]) - l.left_node[i][j])
            == 0) by (nonlinear_arith);
        assert(0int * (l.sibling[i][j] + l.parity_selector * (l.node[i][j] - l.sibling[i][j]) - l.right_node[i][j])
            == 0) by (nonlinear_arith);
    }
    assert(0int * (0int - 1) == 0);
}

/// The trace that the Merkle tree chip generates satisfies every constraint
/// of the Merkle tree AIR on every row.
pub proof fn merkle_trace_satisfies_air(chip: MerkleTreeChip, rows: Seq<MerkleTreeCols<u32>>)
    requires
        is_merkle_trace(chip, rows),
    ensures
        forall|r: int|
            0 <= r < rows.len() ==> merkle_constraints(
                #[trigger] rows[r],
                rows[(r + 1) % (rows.len() as int)],
                r + 1 < rows.len(),
            ),
{
    let len = rows.len() as int;
    let n = num_paths(chip);
    let total = num_real_rows(chip) as int;
    lemma_path_offset_monotone(chip.siblings@, n, chip.siblings.len() as int);
    assert forall|r: int| 0 <= r < rows.len() implies merkle_constraints(
        #[trigger] rows[r],
        rows[(r + 1) % len],
        r + 1 < len,
    ) by {
        let l = rows[r];
        let nx = rows[(r + 1) % len];
        if r < path_offset(chip.siblings@, n) {
            let (k, level) = lemma_locate_row(chip.siblings@, n, r);
            let sibs = digests_view(chip.siblings[k]@);
            let leaf = chip.leaves[k]@;
            let idx = chip.leaf_indices[k];
            assert(path_row_ok(chip, rows, k, level));
            lemma_row_local(l, leaf, idx, sibs, level, 1);
            if r + 1 < len {
                vstd::arithmetic::div_mod::lemma_small_mod((r + 1) as nat, len as nat);
                assert forall|i: int, j: int| 0 <= i < 4 && 0 <= j < 4 implies #[trigger] merkle_copy_ok(
                    l,
                    nx,
                    i,
                    j,
                ) by {
                    if level + 1 < chip.siblings[k]@.len() {
                        assert(path_row_ok(chip, rows, k, level + 1));
                        let (lc, rc) = path_children(leaf, idx, sibs, level as nat);
                        assert(path_node(leaf, idx, sibs, (level + 1) as nat) == compress_spec(lc, rc));
                        assert(l.output[i][j] == nx.node[i][j]);
                        assert(l.is_real * (l.is_final_step - 1) * 0int == 0) by (nonlinear_arith);
                    } else {
                        assert(l.is_final_step == 1);
                        assert(l.is_real * 0int * (l.output[i][j] - nx.node[i][j]) == 0) by (nonlinear_arith);
                    }
                }
            }
        } else if r < total {
            assert(is_zero_merkle_row(rows[r]));
            lemma_unreal_row(l, nx, r + 1 < len);
        } else {
            assert(merkle_padding_row(rows[r]));
            lemma_unreal_row(l, nx, r + 1 < len);
        }
    }
}

/// Where each field of a row sits among its values.
pub proof fn lemma_merkle_row_positions(row: MerkleTreeCols<u32>)
    ensures
        merkle_row_values(row).len() == NUM_MERKLE_TREE_COLS,
        merkle_row_values(row)[0] == row.is_real,
        merkle_row_values(row)[1] == row.is_final_step,
        merkle_row_values(row)[34] == row.parity_selector,
        forall|i: int, j: int|
            0 <= i < 4 && 0 <= j < 4 ==> {
                &&& merkle_row_values(row)[2 + 4 * i + j] == #[trigger] row.node[i][j]
                &&& merkle_row_values(row)[18 + 4 * i + j] == row.sibling[i][j]
                &&& merkle_row_values(row)[35 + 4 * i + j] == row.left_node[i][j]
                &&& merkle_row_values(row)[51 + 4 * i + j] == row.right_node[i][j]
                &&& merkle_row_values(row)[67 + 4 * i + j] == row.output[i][j]
            },
{
    let v = merkle_row_values(row);
    assert forall|i: int, j: int| 0 <= i < 4 && 0 <= j < 4 implies {
        &&& v[2 + 4 * i + j] == #[trigger] row.node[i][j]
        &&& v[18 + 4 * i + j] == row.sibling[i][j]
        &&& v[35 + 4 * i + j] == row.left_node[i][j]
        &&& v[51 + 4 * i + j] == row.right_node[i][j]
        &&& v[67 + 4 * i + j] == row.output[i][j]
    } by {
        let k = 4 * i + j;
        assert(k / 4 == i && k % 4 == j);
        assert(flat_limbs(row.node)[k] == row.node[i][j]);
        assert(flat_limbs(row.sibling)[k] == row.sibling[i][j]);
        assert(flat_limbs(row.left_node)[k] == row.left_node[i][j]);
        assert(flat_limbs(row.right_node)[k] == row.right_node[i][j]);
        assert(flat_limbs(row.output)[k] == row.output[i][j]);
    }
}

/// A row is determined by its values.
pub proof fn lemma_merkle_row_values_injective(a: MerkleTreeCols<u32>, b: MerkleTreeCols<u32>)
    requires
        merkle_row_values(a) == merkle_row_values(b),
    ensures
        a == b,
{
    lemma_merkle_row_positions(a);
    lemma_merkle_row_positions(b);
    assert forall|i: int, j: int| 0 <= i < 4 && 0 <= j < 4 implies a.node[i][j] == b.node[i][j]
        && a.sibling[i][j] == b.sibling[i][j] && a.left_node[i][j] == b.left_node[i][j]
        && a.right_node[i][j] == b.right_node[i][j] && a.output[i][j] == b.output[i][j] by {
        assert(a.node[i][j] == merkle_row_values(a)[2 + 4 * i + j]);
    }
    assert forall|i: int| 0 <= i < 4 implies #[trigger] a.node[i] =~= b.node[i] by {
        assert forall|j: int| 0 <= j < 4 implies a.node[i][j] == b.node[i][j] by {}
    }
    assert forall|i: int| 0 <= i < 4 implies #[trigger] a.sibling[i] =~= b.sibling[i] by {
        assert forall|j: int| 0 <= j < 4 implies a.sibling[i][j] == b.sibling[i][j] by {}
    }
    assert forall|i: int| 0 <= i < 4 implies #[trigger] a.left_node[i] =~= b.left_node[i] by {
        assert forall|j: int| 0 <= j < 4 implies a.left_node[i][j] == b.left_node[i][j] by {}
    }
    assert forall|i: int| 0 <= i < 4 implies #[trigger] a.right_node[i] =~= b.right_node[i] by {
        assert forall|j: int| 0 <= j < 4 implies a.right_node[i][j] == b.right_node[i][j] by {}
    }
    assert forall|i: int| 0 <= i < 4 implies #[trigger] a.output[i] =~= b.output[i] by {
        assert forall|j: int| 0 <= j < 4 implies a.output[i][j] == b.output[i][j] by {}
    }
    assert(a.node =~= b.node);
    assert(a.sibling =~= b.sibling);
    assert(a.left_node =~= b.left_node);
    assert(a.right_node =~= b.right_node);
    assert(a.output =~= b.output);
}

/// Reads sixteen limbs from `first` on, lane by lane.
fn read_limbs(row: &[u32], first: usize) -> (d: [[u32; 4]; 4])
    requires
        first + 16 <= row.len(),
    ensures
        forall|i: int, j: int| 0 <= i < 4 && 0 <= j < 4 ==> #[trigger] d[i][j] == row@[first + 4 * i + j],
{
    let mut d = [[0u32; 4]; 4];
    for i in 0..4
        invariant
            first + 16 <= row.len(),
            forall|a: int, b: int| 0 <= a < i && 0 <= b < 4 ==> #[trigger] d[a][b] == row@[first + 4 * a + b],
    {
        let mut lane = [0u32; 4];
        for j in 0..4
            invariant
                i < 4,
                first + 16 <= row.len(),
                forall|b: int| 0 <= b < j ==> #[trigger] lane[b] == row@[first + 4 * i + b],
        {
            lane[j] = row[first + 4 * i + j];
        }
        let ghost old_d = d;
        d[i] = lane;
        assert forall|a: int, b: int| 0 <= a < i + 1 && 0 <= b < 4 implies #[trigger] d[a][b] == row@[first + 4 * a
            + b] by {
            if a < i {
                assert(d[a] == old_d[a]);
            }
        }
    }
    d
}

impl MerkleTreeCols<u32> {
    /// The row whose values are `row`, each field read from its column.
    pub fn from_row(row: &[u32]) -> (r: Self)
        requires
            row@.len() == NUM_MERKLE_TREE_COLS,
        ensures
            merkle_row_values(r) == row@,
    {
        let r = MerkleTreeCols {
            is_real: row[0],
            is_final_step: row[1],
            node: read_limbs(row, MERKLE_NODE),
            sibling: read_limbs(row, MERKLE_SIBLING),
            parity_selector: row[MERKLE_PARITY_SELECTOR],
            left_node: read_limbs(row, MERKLE_LEFT_NODE),
            right_node: read_limbs(row, MERKLE_RIGHT_NODE),
            output: read_limbs(row, MERKLE_OUTPUT),
        };
        proof {
            lemma_merkle_row_positions(r);
            let v = merkle_row_values(r);
            assert forall|k: int| 0 <= k < 83 implies v[k] == row@[k] by {
                if 2 <= k < 18 {
                    let m = k - 2;
                    assert(v[2 + 4 * (m / 4) + m % 4] == r.node[m / 4][m % 4]);
                } else if 18 <= k < 34 {
                    let m = k - 18;
                    assert(v[18 + 4 * (m / 4) + m % 4] == r.sibling[m / 4][m % 4]);
                } else if 35 <= k < 51 {
                    let m = k - 35;
                    assert(v[35 + 4 * (m / 4) + m % 4] == r.left_node[m / 4][m % 4]);
                } else if 51 <= k < 67 {
                    let m = k - 51;
                    assert(v[51 + 4 * (m / 4) + m % 4] == r.right_node[m / 4][m % 4]);
                } else if 67 <= k < 83 {
                    let m = k - 67;
                    assert(v[67 + 4 * (m / 4) + m % 4] == r.output[m / 4][m % 4]);
                }
            }
            assert(v =~= row@);
        }
        r
    }
}

/// A row whose values are canonical is canonical.
proof fn lemma_merkle_row_canonical(row: MerkleTreeCols<u32>)
    requires
        row_canonical(merkle_row_values(row)),
    ensures
        merkle_row_canonical(row),
{
    lemma_merkle_row_positions(row);
    let v = merkle_row_values(row);
    assert(v[0] < P && v[1] < P && v[34] < P);
    assert forall|i: int, j: int| 0 <= i < 4 && 0 <= j < 4 implies {
        &&& #[trigger] row.node[i][j] < P
        &&& row.sibling[i][j] < P
        &&& row.left_node[i][j] < P
        &&& row.right_node[i][j] < P
        &&& row.output[i][j] < P
    } by {
        assert(v[2 + 4 * i + j] < P && v[18 + 4 * i + j] < P && v[35 + 4 * i + j] < P && v[51 + 4 * i + j] < P
            && v[67 + 4 * i + j] < P);
    }
}

impl Rap for MerkleTreeChip {
    open spec fn spec_width(&self) -> nat {
        NUM_MERKLE_TREE_COLS as nat
    }

    open spec fn spec_preprocessed_width(&self) -> nat {
        0
    }

    /// Degree three: the largest constraints are products of three factors,
    /// each of degree one in the trace values.
    open spec fn spec_constraint_degree(&self) -> nat {
        3
    }

    /// The Merkle tree constraints on the rows whose values these are.
    open spec fn spec_air_constraints(
        &self,
        preprocessed_local: Seq<u32>,
        preprocessed_next: Seq<u32>,
        local: Seq<u32>,
        next: Seq<u32>,
        is_first_row: bool,
        is_last_row: bool,
        is_transition: bool,
    ) -> bool {
        forall|l: MerkleTreeCols<u32>, n: MerkleTreeCols<u32>|
            merkle_row_values(l) == local && merkle_row_values(n) == next ==> #[trigger] merkle_constraints(
                l,
                n,
                is_transition,
            )
    }

    fn width(&self) -> (r: usize) {
        NUM_MERKLE_TREE_COLS
    }

    fn preprocessed_width(&self) -> (r: usize) {
        0
    }

    fn constraint_degree(&self) -> (r: usize) {
        3
    }

    fn eval(
        &self,
        preprocessed_local: &[u32],
        preprocessed_next: &[u32],
        local: &[u32],
        next: &[u32],
        is_first_row: bool,
        is_last_row: bool,
        is_transition: bool,
    ) -> (r: bool) {
        let l = MerkleTreeCols::from_row(local);
        let n = MerkleTreeCols::from_row(next);
        proof {
            lemma_merkle_row_canonical(l);
            lemma_merkle_row_canonical(n);
        }
        let r = self.eval_cols(&l, &n, is_transition);
        proof {
            assert forall|a: MerkleTreeCols<u32>, b: MerkleTreeCols<u32>|
                merkle_row_values(a) == local@ && merkle_row_values(b) == next@ implies #[trigger] merkle_constraints(
                a,
                b,
                is_transition,
            ) == r by {
                lemma_merkle_row_values_injective(a, l);
                lemma_merkle_row_values_injective(b, n);
            }
        }
        r
    }
}

impl MachineChip for MerkleTreeChip {}

/// On a real row the constraints place the node and its sibling as the two
/// children in the order that the parity bit gives: with parity 0 the node
/// is the left child and the sibling the right one, with parity 1 the other
/// way round, limb by limb in the field; for any parity value the left child
/// is `node - parity * (node - sibling)` and the right one
/// `sibling + parity * (node - sibling)`.
pub proof fn merkle_constraints_select_children(l: MerkleTreeCols<u32>, n: MerkleTreeCols<u32>, is_transition: bool)
    requires
        merkle_constraints(l, n, is_transition),
        l.is_real == 1,
    ensures
        forall|i: int, j: int|
            0 <= i < 4 && 0 <= j < 4 ==> fz(
                #[trigger] l.node[i][j] - l.parity_selector * (l.node[i][j] - l.sibling[i][j]) - l.left_node[i][j],
            ) && fz(l.sibling[i][j] + l.parity_selector * (l.node[i][j] - l.sibling[i][j]) - l.right_node[i][j]),
        l.parity_selector == 0 ==> forall|i: int, j: int|
            0 <= i < 4 && 0 <= j < 4 ==> fz(#[trigger] l.node[i][j] - l.left_node[i][j]) && fz(
                l.sibling[i][j] - l.right_node[i][j],
            ),
        l.parity_selector == 1 ==> forall|i: int, j: int|
            0 <= i < 4 && 0 <= j < 4 ==> fz(#[trigger] l.sibling[i][j] - l.left_node[i][j]) && fz(
                l.node[i][j] - l.right_node[i][j],
            ),
{
    assert forall|i: int, j: int| 0 <= i < 4 && 0 <= j < 4 implies fz(
        l.node[i][j] - l.parity_selector * (l.node[i][j] - l.sibling[i][j]) - l.left_node[i][j],
    ) && fz(l.sibling[i][j] + l.parity_selector * (l.node[i][j] - l.sibling[i][j]) - l.right_node[i][j]) by {
        assert(merkle_left_ok(l, i, j));
        assert(merkle_right_ok(l, i, j));
    }
}

/// On a real row that is not the last step of its path, the constraints
/// carry the compression's output to the next row as its node, limb by limb
/// in the field.
pub proof fn merkle_constraints_copy_output(l: MerkleTreeCols<u32>, n: MerkleTreeCols<u32>)
    requires
        merkle_constraints(l, n, true),
        l.is_real == 1,
        l.is_final_step == 0,
    ensures
        forall|i: int, j: int| 0 <= i < 4 && 0 <= j < 4 ==> fz(#[trigger] n.node[i][j] - l.output[i][j]),
{
    assert forall|i: int, j: int| 0 <= i < 4 && 0 <= j < 4 implies fz(#[trigger] n.node[i][j] - l.output[i][j]) by {
        assert(merkle_copy_ok(l, n, i, j));
        let (a, b, o, x) = (l.is_real as int, l.is_final_step as int, l.output[i][j] as int, n.node[i][j] as int);
        assert(a * (b - 1) * (o - x) == x - o) by (nonlinear_arith)
            requires
                a == 1,
                b == 0,
        ;
    }
}

/// The Merkle chip's bus messages on a row: the left child's limbs then the
/// right child's go to the permutation, and the output limbs come back as
/// its digest, both counted once on a real row.
pub proof fn merkle_row_messages(chip: MerkleTreeChip, row: MerkleTreeCols<u32>)
    ensures
        ({
            let values = merkle_row_values(row);
            let sent = chip.spec_sends();
            let received = chip.spec_receives();
            &&& sent.len() == 1 && received.len() == 1
            &&& sent[0].argument_index == chip.bus_keccak_permute_input
            &&& received[0].argument_index == chip.bus_keccak_digest_output
            &&& sent[0].fields.len() == 32 && received[0].fields.len() == 16
            &&& vpc_eval(sent[0].count, seq![], values) == (row.is_real as int) % (P as int)
            &&& vpc_eval(received[0].count, seq![], values) == (row.is_real as int) % (P as int)
            &&& forall|k: int|
                0 <= k < 16 ==> vpc_eval(#[trigger] sent[0].fields[k], seq![], values) == (row.left_node[k
                    / 4][k % 4] as int) % (P as int)
            &&& forall|k: int|
                0 <= k < 16 ==> vpc_eval(#[trigger] sent[0].fields[16 + k], seq![], values) == (
                row.right_node[k / 4][k % 4] as int) % (P as int)
            &&& forall|k: int|
                0 <= k < 16 ==> vpc_eval(#[trigger] received[0].fields[k], seq![], values) == (row.output[k
                    / 4][k % 4] as int) % (P as int)
        }),
{
    let values = merkle_row_values(row);
    assert(values.len() == 83);
    lemma_single_main_eval(0, values);
    assert forall|k: int| 0 <= k < 16 implies values[35 + k] == #[trigger] row.left_node[k / 4][k % 4] && values[51
        + k] == row.right_node[k / 4][k % 4] && values[67 + k] == row.output[k / 4][k % 4] by {}
    assert forall|k: int| 0 <= k < 16 implies vpc_eval(
        #[trigger] chip.spec_sends()[0].fields[k],
        seq![],
        values,
    ) == (row.left_node[k / 4][k % 4] as int) % (P as int) by {
        lemma_single_main_eval((35 + k) as usize, values);
    }
    assert forall|k: int| 0 <= k < 16 implies vpc_eval(
        #[trigger] chip.spec_sends()[0].fields[16 + k],
        seq![],
        values,
    ) == (row.right_node[k / 4][k % 4] as int) % (P as int) by {
        lemma_single_main_eval((51 + k) as usize, values);
    }
    assert forall|k: int| 0 <= k < 16 implies vpc_eval(
        #[trigger] chip.spec_receives()[0].fields[k],
        seq![],
        values,
    ) == (row.output[k / 4][k % 4] as int) % (P as int) by {
        lemma_single_main_eval((67 + k) as usize, values);
    }
}

} // verus!
