//! A lightweight Datalog engine.
//!
//! `Relation` is a sorted, duplicate-free list of tuples; `Variable` is a
//! monotonically growing set of tuples partitioned into stable, recent and
//! pending strata; `Iteration` drives a set of variables of one tuple shape
//! to a fixed point. The operators (`join`, `antijoin`, `map`) consume the
//! recent/stable strata so that every pair of facts meets exactly once
//! across the run (semi-naive evaluation).

pub mod order;
pub mod relation;
pub mod join;
pub mod variable;
pub mod iteration;
