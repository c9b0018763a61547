//! Subscript algebra for einsum-style tensor contractions.
//!
//! A contraction such as `ij,jk->ik` is modelled as a [`subscripts::Subscripts`]
//! value: an ordered list of input label sequences plus one output, each tagged
//! with its provenance. The engine infers implicit outputs, computes which
//! labels must be summed away, and factorizes an n-ary contraction into a
//! left-deep chain of binary steps with fresh intermediate names.

pub mod labels;
pub mod parser;
pub mod subscripts;
