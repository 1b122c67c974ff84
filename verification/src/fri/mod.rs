//! The commitment to polynomials and the proof that committed polynomials have low degree.

pub mod combination_laws;
pub mod commit_laws;
pub mod commit_phase;
pub mod commitment;
pub mod committed_trees;
pub mod coset_laws;
pub mod interpolation_laws;
pub mod laws;
pub mod lde;
pub mod lookup;
pub mod openings;
pub mod oracle;
pub mod oracle_laws;
pub mod proof_of_work;
pub mod prover;
pub mod query;
pub mod query_laws;
pub mod quotient;
pub mod reducing;
pub mod structure;
