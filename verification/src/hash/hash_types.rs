//! Digests.

use crate::field::goldilocks_field::GoldilocksField;
use crate::field::model::{Elt, base, lemma_reduced_self, modulus};
use crate::field::types::{Field, vals};
use crate::util::bytes::{
    from_le, le_bytes, lemma_le_bytes_len, lemma_le_round_trip, lemma_pow256_8, read_u64, write_u64,
};
use vstd::prelude::*;

verus! {

/// A digest of four field elements.
#[derive(Clone, Copy, Debug)]
pub struct HashOut {
    pub elements: [GoldilocksField; 4],
}

/// A digest, as bytes and as field elements.
pub trait GenericHashOut: Copy {
    /// What equal digests have in common.
    spec fn digest(self) -> Seq<Elt>;

    /// The digest that the given bytes are read as.
    spec fn parsed(bytes: Seq<u8>) -> Seq<Elt>;

    /// The bytes of the digest.
    spec fn bytes(self) -> Seq<u8>;

    /// The field elements of the digest.
    spec fn field_elements(self) -> Seq<Elt>;

    /// The number of bytes.
    spec fn byte_len() -> nat;

    /// The bytes of a digest are read as that digest.
    proof fn lemma_round_trip(a: Self)
        ensures
            a.bytes().len() == Self::byte_len(),
            Self::parsed(a.bytes()) == a.digest(),
            Self::byte_len() <= 0x7fff_ffff,
    ;

    /// The bytes of the digest.
    fn to_bytes(&self) -> (r: Vec<u8>)
        ensures
            r@ == self.bytes(),
    ;

    /// Reads a digest.
    fn from_bytes(bytes: &[u8]) -> (r: Self)
        requires
            bytes@.len() == Self::byte_len(),
        ensures
            r.digest() == Self::parsed(bytes@),
    ;

    /// The field elements of the digest.
    fn to_vec(&self) -> (r: Vec<GoldilocksField>)
        ensures
            vals(r@) == self.field_elements(),
    ;

    /// Whether two digests are equal.
    fn same(&self, other: &Self) -> (r: bool)
        ensures
            r == (self.digest() == other.digest()),
    ;
}

/// The word of a field element that digests are made of.
pub open spec fn canonical(x: Elt) -> nat {
    x.re as nat
}

impl HashOut {
    /// The digest of zeros.
    pub fn zero() -> (r: Self)
        ensures
            forall|i: int| 0 <= i < 4 ==> (#[trigger] r.elements@[i]).0 == 0,
    {
        HashOut { elements: [GoldilocksField(0); 4] }
    }
}

impl PartialEq for HashOut {
    /// Equality of all four elements as residues.
    fn eq(&self, other: &Self) -> (r: bool) {
        self.elements[0] == other.elements[0] && self.elements[1] == other.elements[1]
            && self.elements[2] == other.elements[2] && self.elements[3] == other.elements[3]
    }
}

impl Eq for HashOut {

}

impl vstd::std_specs::cmp::PartialEqSpecImpl for HashOut {
    open spec fn obeys_eq_spec() -> bool {
        true
    }

    open spec fn eq_spec(&self, other: &Self) -> bool {
        self.elements[0].0 as int % modulus() == other.elements[0].0 as int % modulus()
            && self.elements[1].0 as int % modulus() == other.elements[1].0 as int % modulus()
            && self.elements[2].0 as int % modulus() == other.elements[2].0 as int % modulus()
            && self.elements[3].0 as int % modulus() == other.elements[3].0 as int % modulus()
    }
}

/// The bytes of the first `n` of a sequence of elements.
pub open spec fn element_bytes(s: Seq<Elt>, n: nat) -> Seq<u8>
    decreases n,
{
    if n == 0 {
        Seq::empty()
    } else {
        element_bytes(s, (n - 1) as nat) + le_bytes(canonical(s[n - 1]), 8)
    }
}

/// There are eight bytes to an element.
pub proof fn lemma_element_bytes_len(s: Seq<Elt>, n: nat)
    ensures
        element_bytes(s, n).len() == 8 * n,
    decreases n,
{
    if n > 0 {
        lemma_element_bytes_len(s, (n - 1) as nat);
        lemma_le_bytes_len(canonical(s[n - 1]), 8);
    }
}

/// The bytes of one element among those of all.
pub proof fn lemma_element_bytes_at(s: Seq<Elt>, n: nat, i: int)
    requires
        0 <= i < n,
    ensures
        element_bytes(s, n).subrange(8 * i, 8 * i + 8) == le_bytes(canonical(s[i]), 8),
        element_bytes(s, n).len() == 8 * n,
    decreases n,
{
    lemma_element_bytes_len(s, n);
    lemma_element_bytes_len(s, (n - 1) as nat);
    lemma_le_bytes_len(canonical(s[n - 1]), 8);
    let (a, b) = (element_bytes(s, (n - 1) as nat), le_bytes(canonical(s[n - 1]), 8));
    if i == n - 1 {
        assert((a + b).subrange(8 * i, 8 * i + 8) =~= b);
    } else {
        lemma_element_bytes_at(s, (n - 1) as nat, i);
        assert((a + b).subrange(8 * i, 8 * i + 8) =~= a.subrange(8 * i, 8 * i + 8));
    }
}

impl GenericHashOut for HashOut {
    open spec fn digest(self) -> Seq<Elt> {
        vals(self.elements@)
    }

    open spec fn parsed(bytes: Seq<u8>) -> Seq<Elt> {
        Seq::new(4, |i: int| base(from_le(bytes.subrange(8 * i, 8 * i + 8)) as int))
    }

    open spec fn bytes(self) -> Seq<u8> {
        element_bytes(vals(self.elements@), 4)
    }

    open spec fn field_elements(self) -> Seq<Elt> {
        vals(self.elements@)
    }

    open spec fn byte_len() -> nat {
        32
    }

    proof fn lemma_round_trip(a: Self) {
        assert(Self::byte_len() == 32);
        let s = vals(a.elements@);
        lemma_element_bytes_len(s, 4);
        assert(a.bytes() == element_bytes(s, 4));
        assert forall|i: int| 0 <= i < 4 implies #[trigger] Self::parsed(a.bytes())[i] == s[i] by {
            lemma_element_bytes_at(s, 4, i);
            lemma_pow256_8();
            GoldilocksField::lemma_values(a.elements@[i]);
            lemma_le_round_trip(canonical(s[i]), 8);
            lemma_reduced_self(s[i]);
        }
        assert(Self::parsed(a.bytes()) =~= s);
        assert(a.digest() == s);
    }

    fn to_bytes(&self) -> (r: Vec<u8>)
        ensures
            r@ == self.bytes(),
    {
        let mut r: Vec<u8> = Vec::with_capacity(32);
        let mut i: usize = 0;
        while i < 4
            invariant
                i <= 4,
                r@ == element_bytes(vals(self.elements@), i as nat),
            decreases 4 - i,
        {
            let word: u64 = self.elements[i].to_canonical_u64();
            write_u64(&mut r, word);
            i = i + 1;
        }
        r
    }

    fn from_bytes(bytes: &[u8]) -> (r: Self)
        ensures
            r.digest() == Self::parsed(bytes@),
    {
        assert(Self::byte_len() == 32);
        let mut elements: [GoldilocksField; 4] = [GoldilocksField(0); 4];
        let mut i: usize = 0;
        while i < 4
            invariant
                i <= 4,
                bytes@.len() == 32,
                forall|j: int|
                    0 <= j < i ==> (#[trigger] elements@[j]).v() == base(
                        from_le(bytes@.subrange(8 * j, 8 * j + 8)) as int,
                    ),
            decreases 4 - i,
        {
            elements[i] = GoldilocksField(read_u64(bytes, 8 * i));
            i = i + 1;
        }
        let r = HashOut { elements };
        assert(r.digest() =~= Self::parsed(bytes@));
        r
    }

    fn to_vec(&self) -> (r: Vec<GoldilocksField>)
        ensures
            vals(r@) == self.field_elements(),
            r@ == self.elements@,
    {
        let mut r: Vec<GoldilocksField> = Vec::with_capacity(4);
        while r.len() < 4
            invariant
                r@.len() <= 4,
                r@ == self.elements@.take(r@.len() as int),
            decreases 4 - r@.len(),
        {
            let i: usize = r.len();
            r.push(self.elements[i]);
            assert(r@ =~= self.elements@.take(r@.len() as int));
        }
        assert(r@ =~= self.elements@);
        r
    }

    fn same(&self, other: &Self) -> (r: bool)
        ensures
            r == (self.digest() == other.digest()),
    {
        let mut i: usize = 0;
        while i < 4
            invariant
                i <= 4,
                forall|j: int|
                    0 <= j < i ==> (#[trigger] self.elements@[j]).v() == other.elements@[j].v(),
            decreases 4 - i,
        {
            if !self.elements[i].equals(other.elements[i]) {
                assert(self.digest()[i as int] != other.digest()[i as int]);
                return false;
            }
            i = i + 1;
        }
        assert(self.digest() =~= other.digest());
        true
    }
}

} // verus!
