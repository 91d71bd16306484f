//! Finite unions of disjoint, closed integer intervals in canonical form.
//!
//! An [`IntervalSet`](set::IntervalSet) stores a sorted vector of closed
//! `i32` ranges, pairwise disjoint and non-adjacent, together with a cached
//! element count.  All set-theoretic operations (union, intersection,
//! complement, difference, subset tests) and the elementwise arithmetic
//! operations return values in the same canonical form, and every operation
//! carries a contract that pins down exactly which values the result
//! contains.

pub mod arith;
pub mod canon;
pub mod codec;
pub mod construct;
pub mod derived;
pub mod find;
pub mod ivl;
pub mod laws;
pub mod merge;
pub mod order;
pub mod set;
