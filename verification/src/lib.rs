//! Numerical semigroups: membership, Apéry sets, conductor, minimal
//! generators and the quantities around Wilf's conjecture.

pub mod numsg;
pub mod gaps;
pub mod residues;
pub mod modules;
pub mod semigroup;
pub mod primes;
pub mod html;
pub mod two_gens;

pub use modules::wilf::WilfSet;
