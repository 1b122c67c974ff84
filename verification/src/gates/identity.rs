//! The names by which gates and generators are told apart.

use crate::gates::addition_base::{AdditionBaseGenerator, AdditionGate};
use crate::gates::equality_base::{EqualityBaseGenerator, EqualityGate};
use crate::gates::poseidon2::Poseidon2Gate;
use crate::gates::poseidon2_witness::Poseidon2Generator;
use crate::gates::random_access::{RandomAccessGate, RandomAccessGenerator};
use crate::hash::poseidon2::config::WIDTH;
use crate::util::text::{append_decimal, decimal};
use vstd::prelude::*;
use vstd::string::StringExecFns;

verus! {

/// The end of the name of a random access gate: the field and the degree of the extension.
pub const RANDOM_ACCESS_ID_END: &'static str =
    ", _phantom: PhantomData<plonky2_field::goldilocks_field::GoldilocksField> }<D=2>";

/// The name of a Poseidon2 gate: the field and the width of the permutation.
pub const POSEIDON2_ID: &'static str =
    "Poseidon2Gate { _phantom: PhantomData<plonky2_field::goldilocks_field::GoldilocksField> }<WIDTH=12>";

impl AdditionGate {
    /// The name of a gate of this kind, with its parameters.
    pub fn id(&self) -> (r: String)
        ensures
            r@ == "AdditionGate { num_ops: "@ + decimal(self.num_ops as nat) + " }"@,
    {
        let mut r = "AdditionGate { num_ops: ".to_owned();
        append_decimal(&mut r, self.num_ops);
        r.append(" }");
        r
    }
}

impl EqualityGate {
    /// The name of a gate of this kind, with its parameters.
    pub fn id(&self) -> (r: String)
        ensures
            r@ == "EqualityGate { num_ops: "@ + decimal(self.num_ops as nat) + " }"@,
    {
        let mut r = "EqualityGate { num_ops: ".to_owned();
        append_decimal(&mut r, self.num_ops);
        r.append(" }");
        r
    }
}

impl RandomAccessGate {
    /// The name of a gate of this kind, with its parameters, the field and the degree of the extension.
    pub fn id(&self) -> (r: String)
        ensures
            r@ == "RandomAccessGate { bits: "@ + decimal(self.bits as nat) + ", num_copies: "@
                + decimal(self.num_copies as nat) + ", num_extra_constants: "@ + decimal(
                self.num_extra_constants as nat,
            ) + RANDOM_ACCESS_ID_END@,
    {
        let mut r = "RandomAccessGate { bits: ".to_owned();
        append_decimal(&mut r, self.bits);
        r.append(", num_copies: ");
        append_decimal(&mut r, self.num_copies);
        r.append(", num_extra_constants: ");
        append_decimal(&mut r, self.num_extra_constants);
        r.append(RANDOM_ACCESS_ID_END);
        r
    }
}

impl Poseidon2Gate {
    /// The name of a gate of this kind, with the field and the width of the permutation.
    pub fn id(&self) -> (r: String)
        ensures
            r@ == POSEIDON2_ID@,
    {
        POSEIDON2_ID.to_owned()
    }
}

impl AdditionBaseGenerator {
    /// The name of the kind of generator.
    pub fn id(&self) -> (r: String)
        ensures
            r@ == "AdditionBaseGenerator"@,
    {
        "AdditionBaseGenerator".to_owned()
    }
}

impl EqualityBaseGenerator {
    /// The name of the kind of generator.
    pub fn id(&self) -> (r: String)
        ensures
            r@ == "EqualityBaseGenerator"@,
    {
        "EqualityBaseGenerator".to_owned()
    }
}

impl RandomAccessGenerator {
    /// The name of the kind of generator.
    pub fn id(&self) -> (r: String)
        ensures
            r@ == "RandomAccessGenerator"@,
    {
        "RandomAccessGenerator".to_owned()
    }
}

impl Poseidon2Generator {
    /// The name of the kind of generator.
    pub fn id(&self) -> (r: String)
        ensures
            r@ == "Poseidon2Generator"@,
    {
        "Poseidon2Generator".to_owned()
    }
}

} // verus!
