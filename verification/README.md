# plonky2

The arithmetic, hashing and commitment layers of a SNARK prover over the Goldilocks field,
verified with [Verus](https://github.com/verus-lang/verus): every executable function under `src/`
carries a contract that is proved.

## Layout

| Directory | Contents |
| --- | --- |
| `src/field` | The field and its quadratic extension, packed arithmetic, transforms, polynomials |
| `src/hash` | The Poseidon2 permutation, the sponge, Merkle trees, and plans for a graphics processor |
| `src/gates` | Gates: their constraints on every kind of value, and the generators that fill rows |
| `src/gadgets`, `src/plonk` | Circuits under construction, selections, hash configurations |
| `src/iop` | Targets, witnesses, and the challenger |
| `src/fri` | Polynomial commitments and the low-degree proof |
| `src/util` | Bits, bytes, and running products |
| `tests` | Tests on concrete values |
| `app` | The Metal device, randomness for blinding, and digests that can be stored |

## How contracts are stated

* An element of the field or its extension is an `Elt`: two residues modulo
  `p = 2^64 - 2^32 + 1`. `Field::v` gives the element that a machine value stands for; the `s_`
  functions give the machine value itself where words matter.
* A transform is stated as the values of a polynomial at the powers of a root of unity
  (`field::dft`), and that the two directions invert each other is proved in `field::inversion`.
  `field::fft::fft_words` and `hash::poseidon2::words` give the words that a transform and the
  permutation leave.
* A Merkle tree is stated by the roots over ranges of leaves (`hash::merkle_model`).
* A gate is a sequence of polynomial constraints (`Gate::constraints`). Evaluation at a point, on
  packed points, over batches and in a circuit all refer to the same sequence, and rows may be
  wider than a gate needs.
* A circuit is a list of nodes with a value for every assignment; the prime field part is a set of
  conditions that an assignment has to meet.
* The transcript of the low-degree proof is a value (`iop::challenger::Transcript`), so that a
  proof is determined by what has been observed.

Laws that relate several functions are public proof functions, in the files named `*_laws.rs`,
`laws.rs`, and next to the functions that they are about.

## Usage

The library works with Poseidon2 (`Poseidon2GoldilocksConfig`). The `try_` hooks of `Hasher` are
where a verified implementation can put a backend for large trees; unless it does, they build
nothing. `app` runs the library's plans on Apple's Metal, with kernels that are read from a file at
run time, and `app/trees.rs` chooses between that and the library.
