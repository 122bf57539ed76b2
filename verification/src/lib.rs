//! Run-length-encoded container over the 16-bit key space.
//!
//! A [`store::RunStore`] keeps a set of `u16` keys as an ascending list of
//! closed ranges, each an [`interval::Interval`]. Keys are inserted one at a
//! time; the set operations in [`ops`] sweep two stores and hand the result
//! to a [`visitor::BinaryOperationVisitor`], of which
//! [`visitor::RunWriter`] builds a new store.
//!
//! The contracts speak of a store as the sequence of its runs and as the
//! set of its keys; [`runs`] holds both models, [`insertion`] and [`sweep`]
//! the models of an insertion and of one step of a sweep, and [`laws`] what
//! holds of the operations taken together.

pub mod insertion;
pub mod interval;
pub mod laws;
pub mod ops;
pub mod runs;
pub mod store;
pub mod sweep;
pub mod visitor;
