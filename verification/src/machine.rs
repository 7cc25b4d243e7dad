use vstd::prelude::*;

use crate::interaction::{Interaction, InteractionSpec};
use crate::keccak_permute::KeccakPermuteChip;
use crate::keccak_sponge::KeccakSpongeChip;
use crate::memory::MemoryChip;
use crate::merkle_tree::{compress_spec, parity_at, path_node, MerkleTreeChip};
use crate::permutation_air::PermutationAir;
use crate::range_checker::RangeCheckerChip;
use crate::util::{le_u64, u64_from_le_bytes};
use crate::xor::XorChip;

verus! {

/// The buses that connect the chips of the Keccak machine.
#[derive(Clone, Copy, PartialEq, Eq, Structural, Debug)]
pub enum KeccakMachineBus {
    KeccakPermuteInput,
    KeccakPermuteOutput,
    KeccakPermuteDigest,
    Range8,
    XorInput,
    XorOutput,
    Memory,
}

/// The index of each bus, in declaration order.
pub open spec fn bus_index(b: KeccakMachineBus) -> usize {
    match b {
        KeccakMachineBus::KeccakPermuteInput => 0,
        KeccakMachineBus::KeccakPermuteOutput => 1,
        KeccakMachineBus::KeccakPermuteDigest => 2,
        KeccakMachineBus::Range8 => 3,
        KeccakMachineBus::XorInput => 4,
        KeccakMachineBus::XorOutput => 5,
        KeccakMachineBus::Memory => 6,
    }
}

impl KeccakMachineBus {
    /// The index of the bus, used as the interactions' argument index.
    pub fn index(&self) -> (r: usize)
        ensures
            r == bus_index(*self),
    {
        match self {
            KeccakMachineBus::KeccakPermuteInput => 0,
            KeccakMachineBus::KeccakPermuteOutput => 1,
            KeccakMachineBus::KeccakPermuteDigest => 2,
            KeccakMachineBus::Range8 => 3,
            KeccakMachineBus::XorInput => 4,
            KeccakMachineBus::XorOutput => 5,
            KeccakMachineBus::Memory => 6,
        }
    }
}

/// The chips of the Keccak machine.
pub enum KeccakMachineChip {
    KeccakPermute(KeccakPermuteChip),
    KeccakSponge(KeccakSpongeChip),
    MerkleTree(MerkleTreeChip),
    Range8(RangeCheckerChip<256>),
    Xor(XorChip),
    Memory(MemoryChip),
}

impl PermutationAir for KeccakMachineChip {
    /// The sends of the chip inside.
    open spec fn spec_sends(&self) -> Seq<InteractionSpec> {
        match self {
            KeccakMachineChip::KeccakPermute(c) => c.spec_sends(),
            KeccakMachineChip::KeccakSponge(c) => c.spec_sends(),
            KeccakMachineChip::MerkleTree(c) => c.spec_sends(),
            KeccakMachineChip::Range8(c) => c.spec_sends(),
            KeccakMachineChip::Xor(c) => c.spec_sends(),
            KeccakMachineChip::Memory(c) => c.spec_sends(),
        }
    }

    /// The receives of the chip inside.
    open spec fn spec_receives(&self) -> Seq<InteractionSpec> {
        match self {
            KeccakMachineChip::KeccakPermute(c) => c.spec_receives(),
            KeccakMachineChip::KeccakSponge(c) => c.spec_receives(),
            KeccakMachineChip::MerkleTree(c) => c.spec_receives(),
            KeccakMachineChip::Range8(c) => c.spec_receives(),
            KeccakMachineChip::Xor(c) => c.spec_receives(),
            KeccakMachineChip::Memory(c) => c.spec_receives(),
        }
    }

    fn sends(&self) -> (r: Vec<Interaction>) {
        match self {
            KeccakMachineChip::KeccakPermute(c) => c.sends(),
            KeccakMachineChip::KeccakSponge(c) => c.sends(),
            KeccakMachineChip::MerkleTree(c) => c.sends(),
            KeccakMachineChip::Range8(c) => c.sends(),
            KeccakMachineChip::Xor(c) => c.sends(),
            KeccakMachineChip::Memory(c) => c.sends(),
        }
    }

    fn receives(&self) -> (r: Vec<Interaction>) {
        match self {
            KeccakMachineChip::KeccakPermute(c) => c.receives(),
            KeccakMachineChip::KeccakSponge(c) => c.receives(),
            KeccakMachineChip::MerkleTree(c) => c.receives(),
            KeccakMachineChip::Range8(c) => c.receives(),
            KeccakMachineChip::Xor(c) => c.receives(),
            KeccakMachineChip::Memory(c) => c.receives(),
        }
    }
}

/// The Keccak machine: sponge hashing of memory, Merkle paths, the Keccak-f
/// permutation, byte range checks and xor, wired by [`KeccakMachineBus`].
pub struct KeccakMachine {
    pub keccak_permute_chip: KeccakMachineChip,
    pub keccak_sponge_chip: KeccakMachineChip,
    pub merkle_tree_chip: KeccakMachineChip,
    pub range_chip: KeccakMachineChip,
    pub xor_chip: KeccakMachineChip,
    pub memory_chip: KeccakMachineChip,
}

/// The machine is wired as [`KeccakMachine::new`] wires it: each chip
/// holds no data and talks on its buses.
pub open spec fn keccak_machine_wired(m: KeccakMachine) -> bool {
    &&& m.keccak_permute_chip matches KeccakMachineChip::KeccakPermute(c) && c.inputs@.len() == 0
        && c.bus_keccak_permute_input == 0 && c.bus_keccak_permute_output == 1
        && c.bus_keccak_permute_digest_output == 2
    &&& m.keccak_sponge_chip matches KeccakMachineChip::KeccakSponge(c) && c.inputs@.len() == 0
        && c.bus_xor_input == 4 && c.bus_keccak_permute_input == 0 && c.bus_range_8 == 3
        && c.bus_memory == 6 && c.bus_xor_output == 5 && c.bus_keccak_permute_output == 1
    &&& m.merkle_tree_chip matches KeccakMachineChip::MerkleTree(c) && c.leaves@.len() == 0
        && c.leaf_indices@.len() == 0 && c.siblings@.len() == 0 && c.bus_keccak_permute_input == 0
        && c.bus_keccak_digest_output == 2
    &&& m.range_chip matches KeccakMachineChip::Range8(c) && c.bus_range_8 == 3
    &&& m.xor_chip matches KeccakMachineChip::Xor(c) && c.bus_xor_input == 4 && c.bus_xor_output
        == 5
    &&& m.memory_chip matches KeccakMachineChip::Memory(c) && c.operations@.len() == 0
        && c.bus_memory == 6 && c.bus_range_8 == 3
}

impl KeccakMachine {
    /// The machine with every chip on its buses.
    pub fn new() -> (r: Self)
        ensures
            keccak_machine_wired(r),
    {
        let keccak_permute_chip = KeccakPermuteChip {
            inputs: Vec::new(),
            bus_keccak_permute_input: KeccakMachineBus::KeccakPermuteInput.index(),
            bus_keccak_permute_output: KeccakMachineBus::KeccakPermuteOutput.index(),
            bus_keccak_permute_digest_output: KeccakMachineBus::KeccakPermuteDigest.index(),
        };
        let keccak_sponge_chip = KeccakSpongeChip {
            inputs: Vec::new(),
            bus_xor_input: KeccakMachineBus::XorInput.index(),
            bus_keccak_permute_input: KeccakMachineBus::KeccakPermuteInput.index(),
            bus_range_8: KeccakMachineBus::Range8.index(),
            bus_memory: KeccakMachineBus::Memory.index(),
            bus_xor_output: KeccakMachineBus::XorOutput.index(),
            bus_keccak_permute_output: KeccakMachineBus::KeccakPermuteOutput.index(),
        };
        let merkle_tree_chip = MerkleTreeChip {
            leaves: Vec::new(),
            leaf_indices: Vec::new(),
            siblings: Vec::new(),
            bus_keccak_permute_input: KeccakMachineBus::KeccakPermuteInput.index(),
            bus_keccak_digest_output: KeccakMachineBus::KeccakPermuteDigest.index(),
        };
        let range_chip = RangeCheckerChip::<256> { bus_range_8: KeccakMachineBus::Range8.index() };
        let xor_chip = XorChip {
            bus_xor_input: KeccakMachineBus::XorInput.index(),
            bus_xor_output: KeccakMachineBus::XorOutput.index(),
        };
        let memory_chip = MemoryChip {
            operations: Vec::new(),
            bus_memory: KeccakMachineBus::Memory.index(),
            bus_range_8: KeccakMachineBus::Range8.index(),
        };
        KeccakMachine {
            keccak_permute_chip: KeccakMachineChip::KeccakPermute(keccak_permute_chip),
            keccak_sponge_chip: KeccakMachineChip::KeccakSponge(keccak_sponge_chip),
            merkle_tree_chip: KeccakMachineChip::MerkleTree(merkle_tree_chip),
            range_chip: KeccakMachineChip::Range8(range_chip),
            xor_chip: KeccakMachineChip::Xor(xor_chip),
            memory_chip: KeccakMachineChip::Memory(memory_chip),
        }
    }

    /// The chips, in a fixed order.
    pub fn chips(&self) -> (r: Vec<&KeccakMachineChip>)
        ensures
            r@ == seq![
                &self.keccak_permute_chip,
                &self.keccak_sponge_chip,
                &self.merkle_tree_chip,
                &self.range_chip,
                &self.xor_chip,
                &self.memory_chip,
            ],
    {
        let mut r: Vec<&KeccakMachineChip> = Vec::new();
        r.push(&self.keccak_permute_chip);
        r.push(&self.keccak_sponge_chip);
        r.push(&self.merkle_tree_chip);
        r.push(&self.range_chip);
        r.push(&self.xor_chip);
        r.push(&self.memory_chip);
        assert(r@ =~= seq![
            &self.keccak_permute_chip,
            &self.keccak_sponge_chip,
            &self.merkle_tree_chip,
            &self.range_chip,
            &self.xor_chip,
            &self.memory_chip,
        ]);
        r
    }
}

/// The chips of a Keccak machine, in the order of [`KeccakMachine::chips`].
pub open spec fn keccak_machine_chips(m: KeccakMachine) -> Seq<KeccakMachineChip> {
    seq![m.keccak_permute_chip, m.keccak_sponge_chip, m.merkle_tree_chip, m.range_chip, m.xor_chip, m.memory_chip]
}

/// The chip sends some message on bus `b`.
pub open spec fn sends_on(c: KeccakMachineChip, b: usize) -> bool {
    exists|k: int| 0 <= k < c.spec_sends().len() && (#[trigger] c.spec_sends()[k]).argument_index == b
}

/// The chip receives some message on bus `b`.
pub open spec fn receives_on(c: KeccakMachineChip, b: usize) -> bool {
    exists|k: int| 0 <= k < c.spec_receives().len() && (#[trigger] c.spec_receives()[k]).argument_index == b
}

/// Some chip of the machine sends on bus `b`.
pub open spec fn bus_has_sender(m: KeccakMachine, b: usize) -> bool {
    exists|c: int| 0 <= c < 6 && #[trigger] sends_on(keccak_machine_chips(m)[c], b)
}

/// Some chip of the machine receives from bus `b`.
pub open spec fn bus_has_receiver(m: KeccakMachine, b: usize) -> bool {
    exists|c: int| 0 <= c < 6 && #[trigger] receives_on(keccak_machine_chips(m)[c], b)
}

/// Every bus of the Keccak machine, as [`KeccakMachine::new`] wires it, has
/// a chip that sends on it and a chip that receives from it, so that what
/// goes out on a bus can be matched by what comes in; and no chip talks on
/// any bus but these.
pub proof fn keccak_machine_buses_connected(m: KeccakMachine)
    requires
        keccak_machine_wired(m),
    ensures
        forall|b: usize| b < 7 ==> #[trigger] bus_has_sender(m, b),
        forall|b: usize| b < 7 ==> #[trigger] bus_has_receiver(m, b),
        forall|c: int, k: int|
            0 <= c < 6 && 0 <= k < keccak_machine_chips(m)[c].spec_sends().len() ==> (
            #[trigger] keccak_machine_chips(m)[c].spec_sends()[k]).argument_index < 7,
        forall|c: int, k: int|
            0 <= c < 6 && 0 <= k < keccak_machine_chips(m)[c].spec_receives().len() ==> (
            #[trigger] keccak_machine_chips(m)[c].spec_receives()[k]).argument_index < 7,
{
    let chips = keccak_machine_chips(m);
    let permute = chips[0];
    let sponge = chips[1];
    let merkle = chips[2];
    let range = chips[3];
    let xor = chips[4];
    let memory = chips[5];
    assert(sends_on(sponge, 0)) by { assert(sponge.spec_sends()[34].argument_index == 0); }
    assert(sends_on(permute, 1)) by { assert(permute.spec_sends()[0].argument_index == 1); }
    assert(sends_on(permute, 2)) by { assert(permute.spec_sends()[1].argument_index == 2); }
    assert(sends_on(sponge, 3)) by { assert(sponge.spec_sends()[35].argument_index == 3); }
    assert(sends_on(sponge, 4)) by { assert(sponge.spec_sends()[0].argument_index == 4); }
    assert(sends_on(xor, 5)) by { assert(xor.spec_sends()[0].argument_index == 5); }
    assert(sends_on(memory, 6)) by { assert(memory.spec_sends()[0].argument_index == 6); }
    assert(receives_on(permute, 0)) by { assert(permute.spec_receives()[0].argument_index == 0); }
    assert(receives_on(sponge, 1)) by { assert(sponge.spec_receives()[170].argument_index == 1); }
    assert(receives_on(merkle, 2)) by { assert(merkle.spec_receives()[0].argument_index == 2); }
    assert(receives_on(range, 3)) by { assert(range.spec_receives()[0].argument_index == 3); }
    assert(receives_on(xor, 4)) by { assert(xor.spec_receives()[0].argument_index == 4); }
    assert(receives_on(sponge, 5)) by { assert(sponge.spec_receives()[136].argument_index == 5); }
    assert(receives_on(memory, 6)) by { assert(memory.spec_receives()[0].argument_index == 6); }
    assert forall|b: usize| b < 7 implies #[trigger] bus_has_sender(m, b) by {
        if b == 0 || b == 3 || b == 4 {
            assert(sends_on(chips[1], b));
        } else if b == 1 || b == 2 {
            assert(sends_on(chips[0], b));
        } else if b == 5 {
            assert(sends_on(chips[4], b));
        } else {
            assert(sends_on(chips[5], b));
        }
    }
    assert forall|b: usize| b < 7 implies #[trigger] bus_has_receiver(m, b) by {
        if b == 0 {
            assert(receives_on(chips[0], b));
        } else if b == 1 || b == 5 {
            assert(receives_on(chips[1], b));
        } else if b == 2 {
            assert(receives_on(chips[2], b));
        } else if b == 3 {
            assert(receives_on(chips[3], b));
        } else if b == 4 {
            assert(receives_on(chips[4], b));
        } else {
            assert(receives_on(chips[5], b));
        }
    }
}

/// The chips of the Merkle path machine.
pub enum ChipType {
    KeccakPermute(KeccakPermuteChip),
    MerkleTree(MerkleTreeChip),
}

/// A machine that proves one Merkle authentication path: the Keccak-f
/// permutation chip and the Merkle tree chip.
pub struct Machine {
    pub keccak_permute_chip: ChipType,
    pub merkle_tree_chip: ChipType,
}

/// The index at `level` of the node on the path of `leaf_index`.
pub open spec fn path_index(leaf_index: usize, level: int) -> usize {
    leaf_index >> (level as usize)
}

/// The index at `level` of the sibling of the node on the path.
pub open spec fn sibling_index(leaf_index: usize, level: int) -> usize {
    (leaf_index >> (level as usize)) ^ 1
}

/// The layers of digests hold the whole path of `leaf_index`: every node on
/// it and every sibling, below the root layer.
pub open spec fn path_in_bounds(digests: Seq<Vec<[u8; 32]>>, leaf_index: usize) -> bool {
    &&& 1 <= digests.len() <= usize::BITS + 1
    &&& leaf_index < digests[0].len()
    &&& forall|i: int|
        0 <= i < digests.len() - 1 ==> path_index(leaf_index, i) < (#[trigger] digests[i]).len()
            && sibling_index(leaf_index, i) < digests[i].len()
}

/// The left and right children compressed at `level` of the path.
pub open spec fn path_children(digests: Seq<Vec<[u8; 32]>>, leaf_index: usize, level: int) -> (
    [u8; 32],
    [u8; 32],
) {
    let node = digests[level][path_index(leaf_index, level) as int];
    let sibling = digests[level][sibling_index(leaf_index, level) as int];
    if path_index(leaf_index, level) & 1 == 0 {
        (node, sibling)
    } else {
        (sibling, node)
    }
}

/// The Keccak-f input state that compresses the children at `level`: the
/// four little-endian lanes of the left child, then those of the right, then
/// zeros.
pub open spec fn compression_input(digests: Seq<Vec<[u8; 32]>>, leaf_index: usize, level: int) -> Seq<u64> {
    let (left, right) = path_children(digests, leaf_index, level);
    Seq::new(
        25,
        |k: int|
            if k < 4 {
                le_u64(left@.subrange(8 * k, 8 * k + 8)) as u64
            } else if k < 8 {
                le_u64(right@.subrange(8 * (k - 4), 8 * (k - 4) + 8)) as u64
            } else {
                0u64
            },
    )
}

/// The Keccak-f input that compresses a pair of digests.
pub fn compression_state(left: &[u8; 32], right: &[u8; 32]) -> (input: [u64; 25])
    ensures
        forall|k: int| 0 <= k < 4 ==> #[trigger] input[k] == le_u64(left@.subrange(8 * k, 8 * k + 8)),
        forall|k: int|
            4 <= k < 8 ==> #[trigger] input[k] == le_u64(right@.subrange(8 * (k - 4), 8 * (k - 4) + 8)),
        forall|k: int| 8 <= k < 25 ==> #[trigger] input[k] == 0,
{
    let mut input = [0u64; 25];
    for k in 0..4
        invariant
            forall|m: int| 0 <= m < k ==> #[trigger] input[m] == le_u64(left@.subrange(8 * m, 8 * m + 8)),
            forall|m: int| 4 <= m < 8 ==> #[trigger] input[m] == 0,
            forall|m: int| 8 <= m < 25 ==> #[trigger] input[m] == 0,
            forall|m: int| k <= m < 4 ==> #[trigger] input[m] == 0,
    {
        let lane = u64_from_le_bytes(left.as_slice(), 8 * k);
        input[k] = lane;
    }
    for k in 0..4
        invariant
            forall|m: int| 0 <= m < 4 ==> #[trigger] input[m] == le_u64(left@.subrange(8 * m, 8 * m + 8)),
            forall|m: int|
                4 <= m < 4 + k ==> #[trigger] input[m] == le_u64(right@.subrange(8 * (m - 4), 8 * (m - 4) + 8)),
            forall|m: int| 4 + k <= m < 25 ==> #[trigger] input[m] == 0,
    {
        let lane = u64_from_le_bytes(right.as_slice(), 8 * k);
        input[4 + k] = lane;
    }
    input
}

impl Machine {
    /// The chips, in a fixed order.
    pub fn chips(&self) -> (r: Vec<&ChipType>)
        ensures
            r@ == seq![&self.keccak_permute_chip, &self.merkle_tree_chip],
    {
        let mut r: Vec<&ChipType> = Vec::new();
        r.push(&self.keccak_permute_chip);
        r.push(&self.merkle_tree_chip);
        assert(r@ =~= seq![&self.keccak_permute_chip, &self.merkle_tree_chip]);
        r
    }

    /// The machine that proves the authentication path of leaf `leaf_index`
    /// in the tree whose layers of digests are `digests`, from the leaves
    /// (`digests[0]`) up to the root.
    pub fn new(digests: Vec<Vec<[u8; 32]>>, leaf_index: usize) -> (r: Self)
        requires
            path_in_bounds(digests@, leaf_index),
        ensures
            r.keccak_permute_chip matches ChipType::KeccakPermute(c) && {
                &&& c.inputs.len() == digests.len() - 1
                &&& forall|i: int|
                    0 <= i < c.inputs.len() ==> (#[trigger] c.inputs[i]).0@ == compression_input(
                        digests@,
                        leaf_index,
                        i,
                    ) && c.inputs[i].1
                &&& c.bus_keccak_permute_input == 0 && c.bus_keccak_permute_output == 1
                    && c.bus_keccak_permute_digest_output == 2
            },
            r.merkle_tree_chip matches ChipType::MerkleTree(c) && {
                &&& c.leaves@ == seq![digests[0][leaf_index as int]]
                &&& c.leaf_indices@ == seq![leaf_index]
                &&& c.siblings.len() == 1
                &&& c.siblings[0].len() == digests.len() - 1
                &&& forall|i: int|
                    0 <= i < digests.len() - 1 ==> #[trigger] c.siblings[0][i]
                        == digests[i][sibling_index(leaf_index, i) as int]
                &&& c.bus_keccak_permute_input == 0 && c.bus_keccak_digest_output == 2
            },
    {
        let leaf = digests[0][leaf_index];
        let height = digests.len() - 1;
        let mut siblings: Vec<[u8; 32]> = Vec::new();
        let mut keccak_inputs: Vec<([u64; 25], bool)> = Vec::new();
        let mut i: usize = 0;
        while i < height
            invariant
                i <= height,
                height == digests.len() - 1,
                path_in_bounds(digests@, leaf_index),
                siblings.len() == i,
                keccak_inputs.len() == i,
                forall|k: int|
                    0 <= k < i ==> #[trigger] siblings[k] == digests[k][sibling_index(leaf_index, k) as int],
                forall|k: int|
                    0 <= k < i ==> (#[trigger] keccak_inputs[k]).0@ == compression_input(digests@, leaf_index, k)
                        && keccak_inputs[k].1,
            decreases height - i,
        {
            assert(i < usize::BITS);
            assert(path_index(leaf_index, i as int) < digests[i as int].len());
            let index = leaf_index >> i;
            let sibling = index ^ 1;
            siblings.push(digests[i][sibling]);
            let parity = index & 1;
            let (left, right) = if parity == 0 {
                (digests[i][index], digests[i][sibling])
            } else {
                (digests[i][sibling], digests[i][index])
            };
            let input = compression_state(&left, &right);
            assert(input@ =~= compression_input(digests@, leaf_index, i as int));
            keccak_inputs.push((input, true));
            i = i + 1;
        }
        let keccak_permute_chip = KeccakPermuteChip {
            inputs: keccak_inputs,
            bus_keccak_permute_input: KeccakMachineBus::KeccakPermuteInput.index(),
            bus_keccak_permute_output: KeccakMachineBus::KeccakPermuteOutput.index(),
            bus_keccak_permute_digest_output: KeccakMachineBus::KeccakPermuteDigest.index(),
        };
        let mut leaves: Vec<[u8; 32]> = Vec::new();
        leaves.push(leaf);
        let mut leaf_indices: Vec<usize> = Vec::new();
        leaf_indices.push(leaf_index);
        let mut all_siblings: Vec<Vec<[u8; 32]>> = Vec::new();
        all_siblings.push(siblings);
        let merkle_tree_chip = MerkleTreeChip {
            leaves,
            leaf_indices,
            siblings: all_siblings,
            bus_keccak_permute_input: KeccakMachineBus::KeccakPermuteInput.index(),
            bus_keccak_digest_output: KeccakMachineBus::KeccakPermuteDigest.index(),
        };
        assert(merkle_tree_chip.leaves@ =~= seq![digests[0][leaf_index as int]]);
        assert(merkle_tree_chip.leaf_indices@ =~= seq![leaf_index]);
        Machine {
            keccak_permute_chip: ChipType::KeccakPermute(keccak_permute_chip),
            merkle_tree_chip: ChipType::MerkleTree(merkle_tree_chip),
        }
    }
}

/// The layers of digests form a Merkle tree: each layer is half as long as
/// the one below it, and each of its digests compresses the two below it.
pub open spec fn is_merkle_tree(digests: Seq<Vec<[u8; 32]>>) -> bool {
    forall|l: int|
        0 <= l < digests.len() - 1 ==> {
            &&& (#[trigger] digests[l]).len() == 2 * digests[l + 1].len()
            &&& forall|i: int|
                0 <= i < digests[l + 1].len() ==> (#[trigger] digests[l + 1][i])@ == compress_spec(
                    digests[l][2 * i]@,
                    digests[l][2 * i + 1]@,
                )
        }
}

/// The siblings of the path of `leaf_index`, from the leaves up.
pub open spec fn path_siblings(digests: Seq<Vec<[u8; 32]>>, leaf_index: usize) -> Seq<Seq<u8>> {
    Seq::new((digests.len() - 1) as nat, |i: int| digests[i][sibling_index(leaf_index, i) as int]@)
}

/// At `level`, the path of `leaf_index` is in the tree and compressing the
/// leaf with its siblings up to there gives the tree's node on the path.
pub open spec fn path_meets_tree(digests: Seq<Vec<[u8; 32]>>, leaf_index: usize, level: int) -> bool {
    &&& path_index(leaf_index, level) < digests[level].len()
    &&& path_node(digests[0][leaf_index as int]@, leaf_index, path_siblings(digests, leaf_index), level as nat)
        == digests[level][path_index(leaf_index, level) as int]@
}

/// Compressing a leaf with its siblings up its path meets, at every level,
/// the tree's node on the path, and at the top the root.
pub proof fn merkle_path_reaches_root(digests: Seq<Vec<[u8; 32]>>, leaf_index: usize)
    requires
        path_in_bounds(digests, leaf_index),
        is_merkle_tree(digests),
    ensures
        forall|level: int| 0 <= level < digests.len() ==> #[trigger] path_meets_tree(digests, leaf_index, level),
{
    assert forall|level: int| 0 <= level < digests.len() implies #[trigger] path_meets_tree(digests, leaf_index, level) by {
        lemma_path_node_level(digests, leaf_index, level);
    }
}

/// One level of [`merkle_path_reaches_root`], by induction.
proof fn lemma_path_node_level(digests: Seq<Vec<[u8; 32]>>, leaf_index: usize, level: int)
    requires
        path_in_bounds(digests, leaf_index),
        is_merkle_tree(digests),
        0 <= level < digests.len(),
    ensures
        path_index(leaf_index, level) < digests[level].len(),
        path_node(digests[0][leaf_index as int]@, leaf_index, path_siblings(digests, leaf_index), level as nat)
            == digests[level][path_index(leaf_index, level) as int]@,
    decreases level,
{
    let leaf = digests[0][leaf_index as int]@;
    let sibs = path_siblings(digests, leaf_index);
    if level == 0 {
        assert(path_index(leaf_index, 0) == leaf_index) by {
            let x = leaf_index;
            assert(x >> 0usize == x) by (bit_vector);
        }
    } else {
        let l = level - 1;
        lemma_path_node_level(digests, leaf_index, l);
        let x = leaf_index;
        let lu = l as usize;
        let j = path_index(leaf_index, l);
        assert(lu < usize::BITS);
        assert(path_index(leaf_index, level) == j / 2) by {
            assert((x >> ((lu + 1) as usize)) == (x >> lu) / 2) by (bit_vector)
                requires
                    lu < 64,
            ;
            assert(level as usize == (lu + 1) as usize);
        }
        assert(parity_at(leaf_index, l) == j & 1);
        assert(digests[l].len() == 2 * digests[level].len());
        let sib = sibs[l];
        assert(sib == digests[l][sibling_index(leaf_index, l) as int]@);
        assert(j & 1 == 0 || j & 1 == 1) by (bit_vector);
        if j & 1 == 0 {
            assert(j ^ 1 == j + 1 && j % 2 == 0) by (bit_vector)
                requires
                    j & 1 == 0,
            ;
            let i = (j / 2) as int;
            assert(2 * i == j && 2 * i + 1 == j + 1);
            assert(digests[level][i]@ == compress_spec(digests[l][2 * i]@, digests[l][2 * i + 1]@));
        } else {
            assert(j ^ 1 == j - 1 && j % 2 == 1) by (bit_vector)
                requires
                    j & 1 == 1,
            ;
            let i = (j / 2) as int;
            assert(2 * i == j - 1 && 2 * i + 1 == j);
            assert(digests[level][i]@ == compress_spec(digests[l][2 * i]@, digests[l][2 * i + 1]@));
        }
    }
}

} // verus!
