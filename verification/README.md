# keccak_machine

The trace side of a STARK machine over the BabyBear field that proves Keccak
sponge hashing of bytes read from memory and Merkle authentication paths
compressed with Keccak-f, with byte range checks and xor lookups, the chips
talking to each other over buses checked by a log-derivative permutation
argument.

Everything in `src/` is verified with Verus:

- `field`, `util`: BabyBear arithmetic on canonical `u32` values, batch
  inversion (through `p3-field`), powers of two, little-endian packing.
- `ext`: the quartic extension `F[X]/(X^4 - 11)`, in which the permutation
  argument's challenges, reciprocals and running sums live; products are
  computed here, inverses through `p3-field`'s batch inversion.
- `interaction`, `permutation_air`: virtual columns, bus messages, the
  interactions of a chip and the random linear combination of a message.
- `memory`, `xor`, `range_checker`, `merkle_tree`, `keccak_sponge`: the
  chips, their trace generation and their interactions. The memory, Merkle
  tree and sponge chips also have AIR constraints, checked row by row; for
  the Merkle tree and the sponge, a proof shows that every generated trace
  satisfies them, and for memory, every trace of accesses at distinct
  addresses.
- `keccak_permute`: the Keccak-f chip's interactions, and its trace: the rows
  that `p3-keccak-air` generates for the input states, each followed by the
  flags that say which rows take an input or give an output or a digest. The
  Keccak-f constraints themselves are those of `p3-keccak-air` and are not
  restated here.
- `permutation`: the permutation trace (reciprocals and running sum), its
  constraints and the check that cumulative sums cancel, with a proof that
  the generated trace satisfies the constraints.
- `bus_balance`: the proof that balanced buses make the cumulative sums of
  all chips add up to zero.
- `chip`, `check_constraints`, `trace`: the chip trait (widths, constraints,
  constraint degree and the number of quotient chunks it calls for),
  row-by-row constraint checking with a proof that a generated permutation
  trace passes it, and the bookkeeping of traces and openings between prover
  and verifier (opening indices, unflattening of openings, loading of proofs
  into openings, shape and cumulative sum checks).
- `rounds`: the opening points of each commitment round on the prover's
  side and, on the verifier's side, the points paired with the opened
  values, with proofs that the prover's layout is the one the unflattening
  of openings reads back and that the verifier checks each value at the
  point the prover opened it at.
- `schema`: the machine's schema as data: for each bus, the longest message
  on it, and for each chip, which of its columns feed which place on which
  bus, and in which direction.
- `machine`: the Keccak machine's buses and chips, with a proof that every bus
  has a sending and a receiving chip, and the Merkle path machine with a proof
  that compressing a leaf up its path reaches the root.

The checks in `src/` return whether the constraints hold. `app/` holds the
variants that panic on a failing row, as a prover's debug check does, turns
traces into Plonky3 matrices, writes them to spreadsheets and writes the
schema as DBML text; `tests/` runs the library on concrete inputs.
