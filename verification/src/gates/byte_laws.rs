//! Where the fields of gates and generators lie in their bytes.

use crate::field::goldilocks_field::GoldilocksField;
use crate::field::model::base;
use crate::field::types::Field;
use crate::gates::addition_base::{AdditionBaseGenerator, AdditionGate};
use crate::gates::equality_base::{EqualityBaseGenerator, EqualityGate};
use crate::gates::poseidon2::Poseidon2Gate;
use crate::gates::poseidon2_witness::Poseidon2Generator;
use crate::gates::random_access::{RandomAccessGate, RandomAccessGenerator};
use crate::gates::serialization::{Serialized, field_word, lemma_words_bytes_len, words_bytes};
use crate::util::bytes::{
    from_le, le_bytes, lemma_le_bytes_len, lemma_le_round_trip, lemma_pow256_8,
};
use vstd::prelude::*;

verus! {

/// The number that the eight bytes at place `k` of the serialized form stand for, lowest byte first.
pub open spec fn number_at<T: Serialized>(x: T, k: int) -> nat {
    from_le(words_bytes(x.words(), x.words().len()).subrange(8 * k, 8 * k + 8))
}

/// Each word takes the eight bytes at its place.
pub proof fn lemma_word_in_bytes(words: Seq<u64>, n: nat, k: int)
    requires
        0 <= k < n <= words.len(),
    ensures
        words_bytes(words, n).len() == 8 * n,
        from_le(words_bytes(words, n).subrange(8 * k, 8 * k + 8)) == words[k],
    decreases n,
{
    let m = (n - 1) as nat;
    lemma_words_bytes_len(words, n);
    lemma_words_bytes_len(words, m);
    lemma_le_bytes_len(words[n - 1] as nat, 8);
    let (a, b) = (words_bytes(words, m), le_bytes(words[n - 1] as nat, 8));
    if k < m {
        lemma_word_in_bytes(words, m, k);
        assert((a + b).subrange(8 * k, 8 * k + 8) =~= a.subrange(8 * k, 8 * k + 8));
    } else {
        assert((a + b).subrange(8 * k, 8 * k + 8) =~= b);
        lemma_pow256_8();
        lemma_le_round_trip(words[k] as nat, 8);
    }
}

/// The bytes of an addition gate: the number of operations.
pub proof fn lemma_addition_gate_bytes(x: AdditionGate)
    ensures
        words_bytes(x.words(), x.words().len()).len() == 8,
        number_at(x, 0) == x.num_ops,
{
    assert(x.words() == seq![x.num_ops as u64]);
    lemma_word_in_bytes(x.words(), 1, 0);
}

/// The bytes of an addition generator: the row, the two constants in canonical form, and the number
/// of the operation.
pub proof fn lemma_addition_generator_bytes(x: AdditionBaseGenerator)
    ensures
        words_bytes(x.words(), x.words().len()).len() == 32,
        number_at(x, 0) == x.row,
        number_at(x, 1) == x.const_0.v().re,
        number_at(x, 2) == x.const_1.v().re,
        number_at(x, 3) == x.i,
{
    GoldilocksField::lemma_values(x.const_0);
    GoldilocksField::lemma_values(x.const_1);
    assert(x.words() == seq![
        x.row as u64,
        field_word(x.const_0),
        field_word(x.const_1),
        x.i as u64,
    ]);
    lemma_word_in_bytes(x.words(), 4, 0);
    lemma_word_in_bytes(x.words(), 4, 1);
    lemma_word_in_bytes(x.words(), 4, 2);
    lemma_word_in_bytes(x.words(), 4, 3);
}

/// The bytes of an equality gate: the number of operations.
pub proof fn lemma_equality_gate_bytes(x: EqualityGate)
    ensures
        words_bytes(x.words(), x.words().len()).len() == 8,
        number_at(x, 0) == x.num_ops,
{
    assert(x.words() == seq![x.num_ops as u64]);
    lemma_word_in_bytes(x.words(), 1, 0);
}

/// The bytes of an equality generator: the number of operations of its gate, the row, the constant
/// in canonical form, and the number of the operation.
pub proof fn lemma_equality_generator_bytes(x: EqualityBaseGenerator)
    ensures
        words_bytes(x.words(), x.words().len()).len() == 32,
        number_at(x, 0) == x.gate.num_ops,
        number_at(x, 1) == x.row,
        number_at(x, 2) == x.const_0.v().re,
        number_at(x, 3) == x.i,
{
    GoldilocksField::lemma_values(x.const_0);
    assert(x.words() == seq![
        x.gate.num_ops as u64,
        x.row as u64,
        field_word(x.const_0),
        x.i as u64,
    ]);
    lemma_word_in_bytes(x.words(), 4, 0);
    lemma_word_in_bytes(x.words(), 4, 1);
    lemma_word_in_bytes(x.words(), 4, 2);
    lemma_word_in_bytes(x.words(), 4, 3);
}

/// The bytes of a random access gate: the number of bits, of copies and of extra constants.
pub proof fn lemma_random_access_gate_bytes(x: RandomAccessGate)
    ensures
        words_bytes(x.words(), x.words().len()).len() == 24,
        number_at(x, 0) == x.bits,
        number_at(x, 1) == x.num_copies,
        number_at(x, 2) == x.num_extra_constants,
{
    assert(x.words() == seq![x.bits as u64, x.num_copies as u64, x.num_extra_constants as u64]);
    lemma_word_in_bytes(x.words(), 3, 0);
    lemma_word_in_bytes(x.words(), 3, 1);
    lemma_word_in_bytes(x.words(), 3, 2);
}

/// The bytes of a random access generator: the row, the copy, and the bytes of its gate.
pub proof fn lemma_random_access_generator_bytes(x: RandomAccessGenerator)
    ensures
        words_bytes(x.words(), x.words().len()).len() == 40,
        number_at(x, 0) == x.row,
        number_at(x, 1) == x.copy,
        number_at(x, 2) == x.gate.bits,
        number_at(x, 3) == x.gate.num_copies,
        number_at(x, 4) == x.gate.num_extra_constants,
{
    assert(x.words() == seq![
        x.row as u64,
        x.copy as u64,
        x.gate.bits as u64,
        x.gate.num_copies as u64,
        x.gate.num_extra_constants as u64,
    ]);
    lemma_word_in_bytes(x.words(), 5, 0);
    lemma_word_in_bytes(x.words(), 5, 1);
    lemma_word_in_bytes(x.words(), 5, 2);
    lemma_word_in_bytes(x.words(), 5, 3);
    lemma_word_in_bytes(x.words(), 5, 4);
}

/// The bytes of a permutation gate: none. Those of its generator: the row.
pub proof fn lemma_poseidon2_bytes(gate: Poseidon2Gate, generator: Poseidon2Generator)
    ensures
        words_bytes(gate.words(), gate.words().len()).len() == 0,
        words_bytes(generator.words(), generator.words().len()).len() == 8,
        number_at(generator, 0) == generator.row,
{
    assert(gate.words() == Seq::<u64>::empty());
    assert(generator.words() == seq![generator.row as u64]);
    lemma_words_bytes_len(gate.words(), 0);
    lemma_word_in_bytes(generator.words(), 1, 0);
}

/// What is read back equals what was written, field by field: generators and gates that compare as
/// the same agree in every number, and in the value of every constant.
pub proof fn lemma_same_as_fields(
    a: AdditionBaseGenerator,
    b: AdditionBaseGenerator,
    c: EqualityBaseGenerator,
    d: EqualityBaseGenerator,
    e: RandomAccessGenerator,
    f: RandomAccessGenerator,
    g: Poseidon2Generator,
    h: Poseidon2Generator,
)
    ensures
        a.same_as(b) <==> a.row == b.row && a.i == b.i && a.const_0.v() == b.const_0.v()
            && a.const_1.v() == b.const_1.v(),
        c.same_as(d) <==> c.gate.num_ops == d.gate.num_ops && c.row == d.row && c.i == d.i
            && c.const_0.v() == d.const_0.v(),
        e.same_as(f) <==> e.row == f.row && e.copy == f.copy && e.gate == f.gate,
        g.same_as(h) <==> g.row == h.row,
{
}

/// What is read from words, whichever they are: every number is its word, and every constant stands
/// for its word.
pub proof fn lemma_read_fields(words: Seq<u64>)
    requires
        words.len() == 5,
    ensures
        AdditionGate::of_words(words).num_ops == words[0] as usize,
        AdditionBaseGenerator::of_words(words).row == words[0] as usize,
        AdditionBaseGenerator::of_words(words).const_0.v() == base(words[1] as int),
        AdditionBaseGenerator::of_words(words).const_1.v() == base(words[2] as int),
        AdditionBaseGenerator::of_words(words).i == words[3] as usize,
        EqualityGate::of_words(words).num_ops == words[0] as usize,
        EqualityBaseGenerator::of_words(words).gate.num_ops == words[0] as usize,
        EqualityBaseGenerator::of_words(words).row == words[1] as usize,
        EqualityBaseGenerator::of_words(words).const_0.v() == base(words[2] as int),
        EqualityBaseGenerator::of_words(words).i == words[3] as usize,
        RandomAccessGate::of_words(words).bits == words[0] as usize,
        RandomAccessGate::of_words(words).num_copies == words[1] as usize,
        RandomAccessGate::of_words(words).num_extra_constants == words[2] as usize,
        RandomAccessGenerator::of_words(words).row == words[0] as usize,
        RandomAccessGenerator::of_words(words).copy == words[1] as usize,
        RandomAccessGenerator::of_words(words).gate.bits == words[2] as usize,
        RandomAccessGenerator::of_words(words).gate.num_copies == words[3] as usize,
        RandomAccessGenerator::of_words(words).gate.num_extra_constants == words[4] as usize,
        Poseidon2Generator::of_words(words).row == words[0] as usize,
{
}

} // verus!
