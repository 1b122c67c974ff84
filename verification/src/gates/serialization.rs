//! Gates and generators as bytes.

use crate::field::goldilocks_field::GoldilocksField;
use crate::field::model::lemma_reduced_self;
use crate::field::types::Field;
use crate::gates::addition_base::{AdditionBaseGenerator, AdditionGate};
use crate::gates::equality_base::{EqualityBaseGenerator, EqualityGate};
use crate::gates::poseidon2::Poseidon2Gate;
use crate::gates::poseidon2_witness::Poseidon2Generator;
use crate::gates::random_access::{RandomAccessGate, RandomAccessGenerator};
use crate::hash::hash_types::canonical;
use crate::util::bytes::{
    from_le, le_bytes, lemma_le_bytes_len, lemma_le_round_trip, lemma_pow256_8, read_u64, write_u64,
};
use vstd::prelude::*;

verus! {

/// The bytes end too early.
#[derive(Clone, Copy, Debug, PartialEq, Eq, Structural)]
pub struct IoError;

/// Bytes that are read from the front.
#[derive(Debug)]
pub struct Buffer<'a> {
    pub bytes: &'a [u8],
    pub pos: usize,
}

/// The bytes of the first `n` words, each with its lowest byte first.
pub open spec fn words_bytes(words: Seq<u64>, n: nat) -> Seq<u8>
    decreases n,
{
    if n == 0 {
        Seq::empty()
    } else {
        words_bytes(words, (n - 1) as nat) + le_bytes(words[n - 1] as nat, 8)
    }
}

/// The word that bytes hold from the given position on.
pub open spec fn word_at(bytes: Seq<u8>, pos: int) -> u64 {
    from_le(bytes.subrange(pos, pos + 8)) as u64
}

/// The `n` words that bytes hold from the given position on.
pub open spec fn words_at(bytes: Seq<u8>, pos: int, n: nat) -> Seq<u64> {
    Seq::new(n, |k: int| word_at(bytes, pos + 8 * k))
}

/// Each word takes eight bytes.
pub proof fn lemma_words_bytes_len(words: Seq<u64>, n: nat)
    ensures
        words_bytes(words, n).len() == 8 * n,
    decreases n,
{
    if n > 0 {
        lemma_words_bytes_len(words, (n - 1) as nat);
        lemma_le_bytes_len(words[n - 1] as nat, 8);
    }
}

/// The words that were written are the words that are read back.
pub proof fn lemma_words_round_trip(words: Seq<u64>, bytes: Seq<u8>, pos: int, n: nat)
    requires
        0 <= pos,
        n <= words.len(),
        pos + 8 * n <= bytes.len(),
        bytes.subrange(pos, pos + 8 * n) == words_bytes(words, n),
    ensures
        words_at(bytes, pos, n) == words.take(n as int),
    decreases n,
{
    if n > 0 {
        let m = (n - 1) as nat;
        lemma_words_bytes_len(words, m);
        lemma_words_bytes_len(words, n);
        let all = words_bytes(words, n);
        let part = bytes.subrange(pos, pos + 8 * n);
        assert(bytes.subrange(pos, pos + 8 * m) =~= part.take((8 * m) as int));
        assert(part.take((8 * m) as int) =~= words_bytes(words, m));
        lemma_words_round_trip(words, bytes, pos, m);
        lemma_le_bytes_len(words[m as int] as nat, 8);
        assert(bytes.subrange(pos + 8 * m, pos + 8 * m + 8) =~= part.skip((8 * m) as int));
        assert(part.skip((8 * m) as int) =~= le_bytes(words[m as int] as nat, 8));
        lemma_pow256_8();
        lemma_le_round_trip(words[m as int] as nat, 8);
        let r = words_at(bytes, pos, n);
        assert forall|k: int| 0 <= k < n implies r[k] == #[trigger] words.take(n as int)[k] by {
            if k < m {
                assert(words_at(bytes, pos, m)[k] == words.take(m as int)[k]);
            }
        }
        assert(r =~= words.take(n as int));
    } else {
        assert(words_at(bytes, pos, 0) =~= words.take(0));
    }
}

impl<'a> Buffer<'a> {
    /// The position lies in the bytes.
    pub open spec fn wf(self) -> bool {
        self.pos <= self.bytes@.len()
    }

    /// Reads from the front of the bytes.
    pub fn new(bytes: &'a [u8]) -> (r: Self)
        ensures
            r.wf(),
            r.bytes@ == bytes@,
            r.pos == 0,
    {
        Buffer { bytes, pos: 0 }
    }

    /// Reads a word.
    pub fn read_u64(&mut self) -> (r: Result<u64, IoError>)
        requires
            old(self).wf(),
        ensures
            final(self).wf(),
            final(self).bytes == old(self).bytes,
            match r {
                Ok(word) => old(self).pos + 8 <= old(self).bytes@.len() && word == word_at(
                    old(self).bytes@,
                    old(self).pos as int,
                ) && final(self).pos == old(self).pos + 8,
                Err(_) => old(self).pos + 8 > old(self).bytes@.len() && final(self).pos == old(
                    self,
                ).pos,
            },
    {
        if self.bytes.len() - self.pos < 8 {
            return Err(IoError);
        }
        let word: u64 = read_u64(self.bytes, self.pos);
        self.pos = self.pos + 8;
        Ok(word)
    }
}

/// Appends words.
fn write_words(dst: &mut Vec<u8>, words: &[u64])
    ensures
        final(dst)@ == old(dst)@ + words_bytes(words@, words@.len()),
{
    let ghost before = dst@;
    let mut i: usize = 0;
    assert(dst@ =~= before + words_bytes(words@, 0));
    while i < words.len()
        invariant
            i <= words@.len(),
            dst@ == before + words_bytes(words@, i as nat),
        decreases words@.len() - i,
    {
        write_u64(dst, words[i]);
        i = i + 1;
        assert(dst@ =~= before + words_bytes(words@, i as nat));
    }
}

/// Reads `n` words.
fn read_words(src: &mut Buffer, n: usize) -> (r: Result<Vec<u64>, IoError>)
    requires
        old(src).wf(),
        n <= 8,
    ensures
        final(src).wf(),
        final(src).bytes == old(src).bytes,
        match r {
            Ok(words) => old(src).pos + 8 * n <= old(src).bytes@.len() && words@ == words_at(
                old(src).bytes@,
                old(src).pos as int,
                n as nat,
            ) && final(src).pos == old(src).pos + 8 * n,
            Err(_) => old(src).pos + 8 * n > old(src).bytes@.len(),
        },
{
    let ghost (bytes, pos) = (src.bytes@, src.pos as int);
    let mut words: Vec<u64> = Vec::new();
    while words.len() < n
        invariant
            src.wf(),
            src.bytes == old(src).bytes,
            bytes == src.bytes@,
            pos == old(src).pos,
            words@.len() <= n <= 8,
            src.pos == pos + 8 * words@.len(),
            words@ == words_at(bytes, pos, words@.len()),
        decreases n - words@.len(),
    {
        match src.read_u64() {
            Ok(word) => {
                words.push(word);
                assert(words@ =~= words_at(bytes, pos, words@.len()));
            },
            Err(error) => {
                return Err(error);
            },
        }
    }
    Ok(words)
}

/// What can be written as a fixed number of words, and read back.
pub trait Serialized: Sized {
    /// The number of words.
    spec fn word_count() -> nat;

    /// The words.
    spec fn words(self) -> Seq<u64>;

    /// What words stand for.
    spec fn of_words(words: Seq<u64>) -> Self;

    /// Equal up to the representation of field elements.
    spec fn same_as(self, other: Self) -> bool;

    /// What is read back is what was written.
    proof fn lemma_round_trip(self)
        ensures
            self.words().len() == Self::word_count(),
            Self::of_words(self.words()).same_as(self),
    ;

    /// Appends the bytes.
    fn serialize(&self, dst: &mut Vec<u8>)
        ensures
            final(dst)@ == old(dst)@ + words_bytes(self.words(), self.words().len()),
    ;

    /// Reads from the bytes, if there are enough.
    fn deserialize(src: &mut Buffer) -> (r: Result<Self, IoError>)
        requires
            old(src).wf(),
        ensures
            final(src).wf(),
            final(src).bytes == old(src).bytes,
            match r {
                Ok(x) => old(src).pos + 8 * Self::word_count() <= old(src).bytes@.len() && x
                    == Self::of_words(
                    words_at(old(src).bytes@, old(src).pos as int, Self::word_count()),
                ) && final(src).pos == old(src).pos + 8 * Self::word_count(),
                Err(_) => old(src).pos + 8 * Self::word_count() > old(src).bytes@.len(),
            },
    ;
}

/// Reading what was written, wherever it stands, gives it back.
pub proof fn lemma_deserialize_serialized<T: Serialized>(x: T, bytes: Seq<u8>, pos: int)
    requires
        0 <= pos,
        pos + 8 * T::word_count() <= bytes.len(),
        bytes.subrange(pos, pos + 8 * T::word_count()) == words_bytes(
            x.words(),
            x.words().len(),
        ),
    ensures
        T::of_words(words_at(bytes, pos, T::word_count())).same_as(x),
{
    x.lemma_round_trip();
    lemma_words_round_trip(x.words(), bytes, pos, T::word_count());
    assert(x.words().take(T::word_count() as int) =~= x.words());
}

/// The canonical word of an element.
pub open spec fn field_word(x: GoldilocksField) -> u64 {
    canonical(x.v()) as u64
}

proof fn lemma_field_word(x: GoldilocksField)
    ensures
        GoldilocksField(field_word(x)).v() == x.v(),
{
    GoldilocksField::lemma_values(x);
    lemma_reduced_self(x.v());
}

impl Serialized for AdditionGate {
    open spec fn word_count() -> nat {
        1
    }

    open spec fn words(self) -> Seq<u64> {
        seq![self.num_ops as u64]
    }

    open spec fn of_words(words: Seq<u64>) -> Self {
        AdditionGate { num_ops: words[0] as usize }
    }

    open spec fn same_as(self, other: Self) -> bool {
        self == other
    }

    proof fn lemma_round_trip(self) {
        assert(self.words() == seq![self.num_ops as u64]);
        assert(Self::word_count() == 1);
        assert(Self::of_words(self.words()) == self);
        assert(Self::of_words(self.words()).same_as(self));
    }

    fn serialize(&self, dst: &mut Vec<u8>)
        ensures
            final(dst)@ == old(dst)@ + words_bytes(self.words(), self.words().len()),
    {
        let words: [u64; 1] = [self.num_ops as u64];
        assert(words@ =~= self.words());
        write_words(dst, &words);
    }

    fn deserialize(src: &mut Buffer) -> (r: Result<Self, IoError>)
        ensures
            match r {
                Ok(x) => old(src).pos + 8 * Self::word_count() <= old(src).bytes@.len() && x
                    == Self::of_words(
                    words_at(old(src).bytes@, old(src).pos as int, Self::word_count()),
                ) && final(src).pos == old(src).pos + 8 * Self::word_count(),
                Err(_) => old(src).pos + 8 * Self::word_count() > old(src).bytes@.len(),
            },
    {
        match read_words(src, 1) {
            Ok(words) => Ok(AdditionGate { num_ops: words[0] as usize }),
            Err(error) => Err(error),
        }
    }
}

impl Serialized for AdditionBaseGenerator {
    open spec fn word_count() -> nat {
        4
    }

    open spec fn words(self) -> Seq<u64> {
        seq![self.row as u64, field_word(self.const_0), field_word(self.const_1), self.i as u64]
    }

    open spec fn of_words(words: Seq<u64>) -> Self {
        AdditionBaseGenerator {
            row: words[0] as usize,
            const_0: GoldilocksField(words[1]),
            const_1: GoldilocksField(words[2]),
            i: words[3] as usize,
        }
    }

    open spec fn same_as(self, other: Self) -> bool {
        &&& self.row == other.row
        &&& self.const_0.v() == other.const_0.v()
        &&& self.const_1.v() == other.const_1.v()
        &&& self.i == other.i
    }

    proof fn lemma_round_trip(self) {
        lemma_field_word(self.const_0);
        lemma_field_word(self.const_1);
        assert(self.words().len() == 4);
        assert(Self::word_count() == 4);
        assert(Self::of_words(self.words()).same_as(self));
    }

    fn serialize(&self, dst: &mut Vec<u8>)
        ensures
            final(dst)@ == old(dst)@ + words_bytes(self.words(), self.words().len()),
    {
        let words: [u64; 4] = [
            self.row as u64,
            self.const_0.to_canonical_u64(),
            self.const_1.to_canonical_u64(),
            self.i as u64,
        ];
        assert(words@ =~= self.words());
        write_words(dst, &words);
    }

    fn deserialize(src: &mut Buffer) -> (r: Result<Self, IoError>)
        ensures
            match r {
                Ok(x) => old(src).pos + 8 * Self::word_count() <= old(src).bytes@.len() && x
                    == Self::of_words(
                    words_at(old(src).bytes@, old(src).pos as int, Self::word_count()),
                ) && final(src).pos == old(src).pos + 8 * Self::word_count(),
                Err(_) => old(src).pos + 8 * Self::word_count() > old(src).bytes@.len(),
            },
    {
        match read_words(src, 4) {
            Ok(words) => Ok(
                AdditionBaseGenerator {
                    row: words[0] as usize,
                    const_0: GoldilocksField(words[1]),
                    const_1: GoldilocksField(words[2]),
                    i: words[3] as usize,
                },
            ),
            Err(error) => Err(error),
        }
    }
}

impl Serialized for EqualityGate {
    open spec fn word_count() -> nat {
        1
    }

    open spec fn words(self) -> Seq<u64> {
        seq![self.num_ops as u64]
    }

    open spec fn of_words(words: Seq<u64>) -> Self {
        EqualityGate { num_ops: words[0] as usize }
    }

    open spec fn same_as(self, other: Self) -> bool {
        self == other
    }

    proof fn lemma_round_trip(self) {
        assert(self.words() == seq![self.num_ops as u64]);
        assert(Self::word_count() == 1);
        assert(Self::of_words(self.words()) == self);
        assert(Self::of_words(self.words()).same_as(self));
    }

    fn serialize(&self, dst: &mut Vec<u8>)
        ensures
            final(dst)@ == old(dst)@ + words_bytes(self.words(), self.words().len()),
    {
        let words: [u64; 1] = [self.num_ops as u64];
        assert(words@ =~= self.words());
        write_words(dst, &words);
    }

    fn deserialize(src: &mut Buffer) -> (r: Result<Self, IoError>)
        ensures
            match r {
                Ok(x) => old(src).pos + 8 * Self::word_count() <= old(src).bytes@.len() && x
                    == Self::of_words(
                    words_at(old(src).bytes@, old(src).pos as int, Self::word_count()),
                ) && final(src).pos == old(src).pos + 8 * Self::word_count(),
                Err(_) => old(src).pos + 8 * Self::word_count() > old(src).bytes@.len(),
            },
    {
        match read_words(src, 1) {
            Ok(words) => Ok(EqualityGate { num_ops: words[0] as usize }),
            Err(error) => Err(error),
        }
    }
}

impl Serialized for EqualityBaseGenerator {
    open spec fn word_count() -> nat {
        4
    }

    open spec fn words(self) -> Seq<u64> {
        seq![self.gate.num_ops as u64, self.row as u64, field_word(self.const_0), self.i as u64]
    }

    open spec fn of_words(words: Seq<u64>) -> Self {
        EqualityBaseGenerator {
            gate: EqualityGate { num_ops: words[0] as usize },
            row: words[1] as usize,
            const_0: GoldilocksField(words[2]),
            i: words[3] as usize,
        }
    }

    open spec fn same_as(self, other: Self) -> bool {
        &&& self.gate == other.gate
        &&& self.row == other.row
        &&& self.const_0.v() == other.const_0.v()
        &&& self.i == other.i
    }

    proof fn lemma_round_trip(self) {
        lemma_field_word(self.const_0);
        assert(self.words().len() == 4);
        assert(Self::word_count() == 4);
        assert(Self::of_words(self.words()).gate == self.gate);
        assert(Self::of_words(self.words()).same_as(self));
    }

    fn serialize(&self, dst: &mut Vec<u8>)
        ensures
            final(dst)@ == old(dst)@ + words_bytes(self.words(), self.words().len()),
    {
        let words: [u64; 4] = [
            self.gate.num_ops as u64,
            self.row as u64,
            self.const_0.to_canonical_u64(),
            self.i as u64,
        ];
        assert(words@ =~= self.words());
        write_words(dst, &words);
    }

    fn deserialize(src: &mut Buffer) -> (r: Result<Self, IoError>)
        ensures
            match r {
                Ok(x) => old(src).pos + 8 * Self::word_count() <= old(src).bytes@.len() && x
                    == Self::of_words(
                    words_at(old(src).bytes@, old(src).pos as int, Self::word_count()),
                ) && final(src).pos == old(src).pos + 8 * Self::word_count(),
                Err(_) => old(src).pos + 8 * Self::word_count() > old(src).bytes@.len(),
            },
    {
        match read_words(src, 4) {
            Ok(words) => Ok(
                EqualityBaseGenerator {
                    gate: EqualityGate { num_ops: words[0] as usize },
                    row: words[1] as usize,
                    const_0: GoldilocksField(words[2]),
                    i: words[3] as usize,
                },
            ),
            Err(error) => Err(error),
        }
    }
}

impl Serialized for RandomAccessGate {
    open spec fn word_count() -> nat {
        3
    }

    open spec fn words(self) -> Seq<u64> {
        seq![self.bits as u64, self.num_copies as u64, self.num_extra_constants as u64]
    }

    open spec fn of_words(words: Seq<u64>) -> Self {
        RandomAccessGate {
            bits: words[0] as usize,
            num_copies: words[1] as usize,
            num_extra_constants: words[2] as usize,
        }
    }

    open spec fn same_as(self, other: Self) -> bool {
        self == other
    }

    proof fn lemma_round_trip(self) {
        assert(self.words().len() == 3);
        assert(Self::word_count() == 3);
        assert(Self::of_words(self.words()) == self);
        assert(Self::of_words(self.words()).same_as(self));
    }

    fn serialize(&self, dst: &mut Vec<u8>)
        ensures
            final(dst)@ == old(dst)@ + words_bytes(self.words(), self.words().len()),
    {
        let words: [u64; 3] = [
            self.bits as u64,
            self.num_copies as u64,
            self.num_extra_constants as u64,
        ];
        assert(words@ =~= self.words());
        write_words(dst, &words);
    }

    fn deserialize(src: &mut Buffer) -> (r: Result<Self, IoError>)
        ensures
            match r {
                Ok(x) => old(src).pos + 8 * Self::word_count() <= old(src).bytes@.len() && x
                    == Self::of_words(
                    words_at(old(src).bytes@, old(src).pos as int, Self::word_count()),
                ) && final(src).pos == old(src).pos + 8 * Self::word_count(),
                Err(_) => old(src).pos + 8 * Self::word_count() > old(src).bytes@.len(),
            },
    {
        match read_words(src, 3) {
            Ok(words) => Ok(
                RandomAccessGate {
                    bits: words[0] as usize,
                    num_copies: words[1] as usize,
                    num_extra_constants: words[2] as usize,
                },
            ),
            Err(error) => Err(error),
        }
    }
}

impl Serialized for RandomAccessGenerator {
    open spec fn word_count() -> nat {
        5
    }

    open spec fn words(self) -> Seq<u64> {
        seq![
            self.row as u64,
            self.copy as u64,
            self.gate.bits as u64,
            self.gate.num_copies as u64,
            self.gate.num_extra_constants as u64,
        ]
    }

    open spec fn of_words(words: Seq<u64>) -> Self {
        RandomAccessGenerator {
            row: words[0] as usize,
            copy: words[1] as usize,
            gate: RandomAccessGate {
                bits: words[2] as usize,
                num_copies: words[3] as usize,
                num_extra_constants: words[4] as usize,
            },
        }
    }

    open spec fn same_as(self, other: Self) -> bool {
        self == other
    }

    proof fn lemma_round_trip(self) {
        assert(self.words().len() == 5);
        assert(Self::word_count() == 5);
        assert(Self::of_words(self.words()).gate == self.gate);
        assert(Self::of_words(self.words()) == self);
        assert(Self::of_words(self.words()).same_as(self));
    }

    fn serialize(&self, dst: &mut Vec<u8>)
        ensures
            final(dst)@ == old(dst)@ + words_bytes(self.words(), self.words().len()),
    {
        let words: [u64; 5] = [
            self.row as u64,
            self.copy as u64,
            self.gate.bits as u64,
            self.gate.num_copies as u64,
            self.gate.num_extra_constants as u64,
        ];
        assert(words@ =~= self.words());
        write_words(dst, &words);
    }

    fn deserialize(src: &mut Buffer) -> (r: Result<Self, IoError>)
        ensures
            match r {
                Ok(x) => old(src).pos + 8 * Self::word_count() <= old(src).bytes@.len() && x
                    == Self::of_words(
                    words_at(old(src).bytes@, old(src).pos as int, Self::word_count()),
                ) && final(src).pos == old(src).pos + 8 * Self::word_count(),
                Err(_) => old(src).pos + 8 * Self::word_count() > old(src).bytes@.len(),
            },
    {
        match read_words(src, 5) {
            Ok(words) => Ok(
                RandomAccessGenerator {
                    row: words[0] as usize,
                    copy: words[1] as usize,
                    gate: RandomAccessGate {
                        bits: words[2] as usize,
                        num_copies: words[3] as usize,
                        num_extra_constants: words[4] as usize,
                    },
                },
            ),
            Err(error) => Err(error),
        }
    }
}

impl Serialized for Poseidon2Gate {
    open spec fn word_count() -> nat {
        0
    }

    open spec fn words(self) -> Seq<u64> {
        Seq::empty()
    }

    open spec fn of_words(words: Seq<u64>) -> Self {
        Poseidon2Gate
    }

    open spec fn same_as(self, other: Self) -> bool {
        true
    }

    proof fn lemma_round_trip(self) {
        assert(self.words().len() == 0);
        assert(Self::word_count() == 0);
        assert(Self::of_words(self.words()).same_as(self));
    }

    fn serialize(&self, dst: &mut Vec<u8>)
        ensures
            final(dst)@ == old(dst)@ + words_bytes(self.words(), self.words().len()),
    {
        assert(dst@ =~= dst@ + words_bytes(self.words(), 0));
    }

    fn deserialize(src: &mut Buffer) -> (r: Result<Self, IoError>)
        ensures
            r is Ok,
            r->Ok_0 == Self::of_words(
                words_at(old(src).bytes@, old(src).pos as int, Self::word_count()),
            ),
            final(src).pos == old(src).pos + 8 * Self::word_count(),
            Self::word_count() == 0,
    {
        Ok(Poseidon2Gate)
    }
}

impl Serialized for Poseidon2Generator {
    open spec fn word_count() -> nat {
        1
    }

    open spec fn words(self) -> Seq<u64> {
        seq![self.row as u64]
    }

    open spec fn of_words(words: Seq<u64>) -> Self {
        Poseidon2Generator { row: words[0] as usize }
    }

    open spec fn same_as(self, other: Self) -> bool {
        self == other
    }

    proof fn lemma_round_trip(self) {
        assert(self.words() == seq![self.row as u64]);
        assert(Self::word_count() == 1);
        assert(Self::of_words(self.words()) == self);
        assert(Self::of_words(self.words()).same_as(self));
    }

    fn serialize(&self, dst: &mut Vec<u8>)
        ensures
            final(dst)@ == old(dst)@ + words_bytes(self.words(), self.words().len()),
    {
        let words: [u64; 1] = [self.row as u64];
        assert(words@ =~= self.words());
        write_words(dst, &words);
    }

    fn deserialize(src: &mut Buffer) -> (r: Result<Self, IoError>)
        ensures
            match r {
                Ok(x) => old(src).pos + 8 * Self::word_count() <= old(src).bytes@.len() && x
                    == Self::of_words(
                    words_at(old(src).bytes@, old(src).pos as int, Self::word_count()),
                ) && final(src).pos == old(src).pos + 8 * Self::word_count(),
                Err(_) => old(src).pos + 8 * Self::word_count() > old(src).bytes@.len(),
            },
    {
        match read_words(src, 1) {
            Ok(words) => Ok(Poseidon2Generator { row: words[0] as usize }),
            Err(error) => Err(error),
        }
    }
}

} // verus!
