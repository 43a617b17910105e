//! A multiset of natural numbers with a digest, and the tables of precomputed powers from which the
//! digest can be rebuilt.

#![allow(unused_imports)]

mod bignum;
pub mod comb_laws;
pub mod digits;
pub mod elements;
pub mod exp_set;
pub mod group;
pub mod integer;
pub mod lines;
pub mod log2;
pub mod natural;
pub mod number_laws;
pub mod numeral;
mod par;
pub mod precomp;
pub mod product;
pub mod set_laws;
pub mod tables;
